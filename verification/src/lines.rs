//! Byte-level line utilities for interpreting received data.

use vstd::prelude::*;

verus! {

/// ASCII whitespace, as `u8::is_ascii_whitespace` counts it, plus the
/// vertical tab.
pub open spec fn is_ascii_ws(b: u8) -> bool {
    b == 0x20 || b == 0x09 || b == 0x0A || b == 0x0D || b == 0x0B || b == 0x0C
}

/// Index of the first line feed, or the length when there is none.
pub open spec fn line_end(s: Seq<u8>) -> int
    decreases s.len(),
{
    if s.len() == 0 {
        0
    } else if s.first() == 0x0A {
        0
    } else {
        1 + line_end(s.drop_first())
    }
}

/// `line_end` is the first line-feed position.
pub proof fn lemma_line_end(s: Seq<u8>)
    ensures
        0 <= line_end(s) <= s.len(),
        forall|i: int| 0 <= i < line_end(s) ==> s[i] != 0x0A,
        line_end(s) < s.len() ==> s[line_end(s)] == 0x0A,
    decreases s.len(),
{
    if s.len() > 0 && s.first() != 0x0A {
        let d = s.drop_first();
        lemma_line_end(d);
        assert(forall|i: int| 0 <= i < d.len() ==> d[i] == s[i + 1]);
        assert forall|i: int| 0 <= i < line_end(s) implies s[i] != 0x0A by {
            if i > 0 {
                assert(d[i - 1] != 0x0A);
            }
        }
    }
}

/// Number of leading ASCII-whitespace bytes.
pub open spec fn trim_start_idx(s: Seq<u8>) -> int
    decreases s.len(),
{
    if s.len() == 0 {
        0
    } else if is_ascii_ws(s.first()) {
        1 + trim_start_idx(s.drop_first())
    } else {
        0
    }
}

/// Length kept after dropping trailing ASCII whitespace.
pub open spec fn trim_end_idx(s: Seq<u8>) -> int
    decreases s.len(),
{
    if s.len() == 0 {
        0
    } else if is_ascii_ws(s.last()) {
        trim_end_idx(s.drop_last())
    } else {
        s.len() as int
    }
}

/// The sequence with ASCII whitespace removed from both ends.
pub open spec fn trim_ascii(s: Seq<u8>) -> Seq<u8> {
    if trim_start_idx(s) <= trim_end_idx(s) {
        s.subrange(trim_start_idx(s), trim_end_idx(s))
    } else {
        Seq::empty()
    }
}

/// `trim_start_idx` skips exactly the leading whitespace.
pub proof fn lemma_trim_start(s: Seq<u8>)
    ensures
        0 <= trim_start_idx(s) <= s.len(),
        forall|i: int| 0 <= i < trim_start_idx(s) ==> is_ascii_ws(s[i]),
        trim_start_idx(s) < s.len() ==> !is_ascii_ws(s[trim_start_idx(s)]),
    decreases s.len(),
{
    if s.len() > 0 && is_ascii_ws(s.first()) {
        let d = s.drop_first();
        lemma_trim_start(d);
        assert(forall|i: int| 0 <= i < d.len() ==> d[i] == s[i + 1]);
        assert forall|i: int| 0 <= i < trim_start_idx(s) implies is_ascii_ws(s[i]) by {
            if i > 0 {
                assert(is_ascii_ws(d[i - 1]));
            }
        }
    }
}

/// `trim_end_idx` drops exactly the trailing whitespace.
pub proof fn lemma_trim_end(s: Seq<u8>)
    ensures
        0 <= trim_end_idx(s) <= s.len(),
        forall|i: int| trim_end_idx(s) <= i < s.len() ==> is_ascii_ws(s[i]),
        trim_end_idx(s) > 0 ==> !is_ascii_ws(s[trim_end_idx(s) - 1]),
    decreases s.len(),
{
    if s.len() > 0 && is_ascii_ws(s.last()) {
        let d = s.drop_last();
        lemma_trim_end(d);
        assert(forall|i: int| 0 <= i < d.len() ==> d[i] == s[i]);
    }
}

/// Extracts the first line of `s` (up to a line feed or the end), trimmed
/// of ASCII whitespace on both ends — so a terminating carriage return
/// disappears as well.
pub fn leading_line_trimmed(s: &[u8]) -> (r: Vec<u8>)
    ensures
        r@ == trim_ascii(s@.take(line_end(s@))),
{
    proof {
        lemma_line_end(s@);
    }
    let n = s.len();
    let mut e: usize = 0;
    while e < n && s[e] != 0x0A
        invariant
            n == s@.len(),
            e <= n,
            forall|i: int| 0 <= i < e ==> s@[i] != 0x0A,
        decreases n - e,
    {
        e += 1;
    }
    proof {
        assert(e as int == line_end(s@)) by {
            lemma_line_end(s@);
            if (e as int) < line_end(s@) {
                assert(s@[e as int] == 0x0A);
            }
            if line_end(s@) < e as int {
                assert(s@[line_end(s@)] != 0x0A);
            }
        }
    }
    // find the trimmed bounds within s[0..e]
    let ghost lseq = s@.take(e as int);
    proof {
        lemma_trim_start(lseq);
        lemma_trim_end(lseq);
        assert(forall|i: int| 0 <= i < e ==> lseq[i] == s@[i]);
    }
    let mut a: usize = 0;
    while a < e && is_ws_byte(s[a])
        invariant
            e <= n,
            n == s@.len(),
            lseq == s@.take(e as int),
            a <= e,
            forall|i: int| 0 <= i < a ==> is_ascii_ws(lseq[i]),
        decreases e - a,
    {
        a += 1;
    }
    proof {
        assert(a as int == trim_start_idx(lseq)) by {
            lemma_trim_start(lseq);
            if (a as int) < trim_start_idx(lseq) {
                assert(is_ascii_ws(lseq[a as int]));
                assert(false);
            }
            if trim_start_idx(lseq) < a as int {
                assert(!is_ascii_ws(lseq[trim_start_idx(lseq)]));
                assert(false);
            }
        }
    }
    let mut b: usize = e;
    while b > a && is_ws_byte(s[b - 1])
        invariant
            e <= n,
            n == s@.len(),
            lseq == s@.take(e as int),
            a <= b <= e,
            a as int == trim_start_idx(lseq),
            forall|i: int| b <= i < e ==> is_ascii_ws(lseq[i]),
        decreases b,
    {
        b -= 1;
    }
    proof {
        assert(b as int == trim_end_idx(lseq) || (b == a && trim_end_idx(lseq) < a as int)) by {
            lemma_trim_end(lseq);
            lemma_trim_start(lseq);
            if b > a {
                // the loop stopped on a non-whitespace byte at b - 1
                if (b as int) < trim_end_idx(lseq) {
                    assert(!is_ascii_ws(lseq[trim_end_idx(lseq) - 1]));
                    assert(trim_end_idx(lseq) - 1 >= b);
                    assert(is_ascii_ws(lseq[trim_end_idx(lseq) - 1]));
                    assert(false);
                }
                if trim_end_idx(lseq) < b as int {
                    assert(!is_ascii_ws(lseq[b as int - 1]));
                    assert(trim_end_idx(lseq) <= b as int - 1);
                    assert(is_ascii_ws(lseq[b as int - 1]));
                    assert(false);
                }
            } else {
                // everything from a on is whitespace
                if trim_end_idx(lseq) > a as int {
                    assert(!is_ascii_ws(lseq[trim_end_idx(lseq) - 1]));
                    assert(is_ascii_ws(lseq[trim_end_idx(lseq) - 1]));
                    assert(false);
                }
            }
        }
    }
    let mut out: Vec<u8> = Vec::new();
    let mut k: usize = a;
    while k < b
        invariant
            a <= k <= b <= e,
            e <= n,
            n == s@.len(),
            out@ == s@.take(e as int).subrange(a as int, k as int),
        decreases b - k,
    {
        out.push(s[k]);
        k += 1;
        proof {
            assert(out@ =~= s@.take(e as int).subrange(a as int, k as int));
        }
    }
    proof {
        if trim_start_idx(lseq) <= trim_end_idx(lseq) {
            assert(b as int == trim_end_idx(lseq));
            assert(out@ =~= trim_ascii(lseq));
        } else {
            assert(b == a);
            assert(out@ =~= Seq::<u8>::empty());
            assert(out@ =~= trim_ascii(lseq));
        }
    }
    out
}

/// Whether a byte is ASCII whitespace (including the vertical tab).
pub fn is_ws_byte(b: u8) -> (r: bool)
    ensures
        r == is_ascii_ws(b),
{
    b == 0x20 || b == 0x09 || b == 0x0A || b == 0x0D || b == 0x0B || b == 0x0C
}

} // verus!
