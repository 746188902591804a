//! Parsing of frequency-table lines.
//!
//! A unigram line is `word<TAB>count`, a bigram line is
//! `first second<TAB>count`.  Reading the files is a caller's concern; the
//! line format is the library's.

use vstd::prelude::*;

verus! {

/// An ASCII decimal digit.
pub open spec fn is_digit(b: u8) -> bool {
    48 <= b <= 57
}

/// Every byte is a decimal digit.
pub open spec fn all_digits(s: Seq<u8>) -> bool {
    forall|i: int| 0 <= i < s.len() ==> is_digit(#[trigger] s[i])
}

/// The number a digit string denotes.
pub open spec fn digits_value(s: Seq<u8>) -> int
    decreases s.len(),
{
    if s.len() == 0 {
        0
    } else {
        digits_value(s.drop_last()) * 10 + (s.last() - 48)
    }
}

/// A digit string denotes at least what any of its prefixes denotes.
proof fn lemma_digits_value_prefix(s: Seq<u8>, i: int)
    requires
        0 <= i <= s.len(),
        all_digits(s),
    ensures
        digits_value(s.take(i)) <= digits_value(s),
        digits_value(s) >= 0,
    decreases s.len() - i,
{
    if i == s.len() {
        assert(s.take(i) =~= s);
        lemma_digits_value_nonneg(s);
    } else {
        lemma_digits_value_prefix(s, i + 1);
        assert(s.take(i + 1).drop_last() =~= s.take(i));
        assert(s.take(i + 1).last() == s[i]);
        lemma_digits_value_nonneg(s.take(i));
        assert(digits_value(s.take(i)) * 10 >= digits_value(s.take(i))) by (nonlinear_arith)
            requires
                digits_value(s.take(i)) >= 0,
        ;
    }
}

proof fn lemma_digits_value_nonneg(s: Seq<u8>)
    requires
        all_digits(s),
    ensures
        digits_value(s) >= 0,
    decreases s.len(),
{
    if s.len() > 0 {
        assert(all_digits(s.drop_last())) by {
            assert(forall|i: int| 0 <= i < s.len() - 1 ==> s.drop_last()[i] == s[i]);
        }
        lemma_digits_value_nonneg(s.drop_last());
        assert(digits_value(s.drop_last()) * 10 >= 0) by (nonlinear_arith)
            requires
                digits_value(s.drop_last()) >= 0,
        ;
    }
}

/// Position of the first occurrence of `c`.
pub fn find_byte(s: &[u8], c: u8) -> (r: Option<usize>)
    ensures
        match r {
            Some(i) => i < s@.len() && s@[i as int] == c && (forall|j: int|
                0 <= j < i ==> s@[j] != c),
            None => forall|j: int| 0 <= j < s@.len() ==> s@[j] != c,
        },
{
    let mut i: usize = 0;
    while i < s.len()
        invariant
            i <= s@.len(),
            forall|j: int| 0 <= j < i ==> s@[j] != c,
        decreases s@.len() - i,
    {
        if s[i] == c {
            return Some(i);
        }
        i += 1;
    }
    None
}

/// Parse an unsigned decimal number.  Succeeds exactly on a nonempty digit
/// string whose value fits the result type.
pub fn parse_u64(s: &[u8]) -> (r: Option<u64>)
    ensures
        match r {
            Some(v) => s@.len() >= 1 && all_digits(s@) && v == digits_value(s@),
            None => !(s@.len() >= 1 && all_digits(s@) && digits_value(s@) <= u64::MAX),
        },
{
    if s.len() == 0 {
        return None;
    }
    let mut v: u64 = 0;
    let mut i: usize = 0;
    while i < s.len()
        invariant
            i <= s@.len(),
            forall|j: int| 0 <= j < i ==> is_digit(#[trigger] s@[j]),
            v == digits_value(s@.take(i as int)),
        decreases s@.len() - i,
    {
        let b = s[i];
        if !(48 <= b && b <= 57) {
            return None;
        }
        let d: u64 = (b - 48) as u64;
        proof {
            assert(s@.take(i + 1).drop_last() =~= s@.take(i as int));
            assert(s@.take(i + 1).last() == s@[i as int]);
        }
        if v > (u64::MAX - d) / 10 {
            proof {
                // the prefix already exceeds the type: so does the whole
                // string, if it is all digits
                if all_digits(s@) && digits_value(s@) <= u64::MAX {
                    lemma_digits_value_prefix(s@, i + 1);
                    assert(digits_value(s@.take(i + 1)) == v * 10 + d);
                    assert(v * 10 + d > u64::MAX) by (nonlinear_arith)
                        requires
                            v > (u64::MAX - d) / 10,
                            0 <= d <= 9,
                            v >= 0,
                    ;
                }
            }
            return None;
        }
        v = v * 10 + d;
        i += 1;
    }
    proof {
        assert(s@.take(s@.len() as int) =~= s@);
    }
    Some(v)
}

/// Parse a unigram line `word<TAB>count`.  Succeeds exactly when the line
/// holds a tab and what follows the first tab is a nonempty decimal count in
/// range; the word is everything before that tab.
pub fn parse_unigram_line(line: &[u8]) -> (r: Option<(Vec<u8>, u64)>)
    ensures
        match r {
            Some((w, c)) => exists|i: int|
                {
                    &&& 0 <= i < line@.len()
                    &&& line@[i] == 9
                    &&& (forall|j: int| 0 <= j < i ==> line@[j] != 9)
                    &&& w@ == line@.subrange(0, i)
                    &&& line@.len() - i - 1 >= 1
                    &&& all_digits(line@.subrange(i + 1, line@.len() as int))
                    &&& c == digits_value(line@.subrange(i + 1, line@.len() as int))
                },
            None => forall|i: int|
                (0 <= i < line@.len() && line@[i] == 9 && (forall|j: int|
                    0 <= j < i ==> line@[j] != 9)) ==> !(line@.len() - i - 1 >= 1 && all_digits(
                    line@.subrange(i + 1, line@.len() as int),
                ) && digits_value(line@.subrange(i + 1, line@.len() as int)) <= u64::MAX),
        },
{
    let n = line.len();
    match find_byte(line, 9) {
        None => None,
        Some(tab) => {
            let digits = vstd::slice::slice_subrange(line, tab + 1, n);
            match parse_u64(digits) {
                None => None,
                Some(c) => {
                    let word = vstd::slice::slice_subrange(line, 0, tab);
                    let mut w: Vec<u8> = Vec::new();
                    let mut i: usize = 0;
                    while i < word.len()
                        invariant
                            i <= word@.len(),
                            w@ == word@.subrange(0, i as int),
                        decreases word@.len() - i,
                    {
                        w.push(word[i]);
                        i += 1;
                        proof {
                            assert(w@ =~= word@.subrange(0, i as int));
                        }
                    }
                    proof {
                        assert(w@ =~= line@.subrange(0, tab as int));
                    }
                    Some((w, c))
                },
            }
        },
    }
}

/// Parse a bigram line `first second<TAB>count`: the first space splits the
/// two words, the first tab after it starts the count.
pub fn parse_bigram_line(line: &[u8]) -> (r: Option<(Vec<u8>, Vec<u8>, u64)>)
    ensures
        match r {
            Some((w1, w2, c)) => exists|sp: int, tab: int|
                {
                    &&& 0 <= sp < tab < line@.len()
                    &&& line@[sp] == 32
                    &&& (forall|j: int| 0 <= j < sp ==> line@[j] != 32)
                    &&& line@[tab] == 9
                    &&& (forall|j: int| sp < j < tab ==> line@[j] != 9)
                    &&& w1@ == line@.subrange(0, sp)
                    &&& w2@ == line@.subrange(sp + 1, tab)
                    &&& line@.len() - tab - 1 >= 1
                    &&& all_digits(line@.subrange(tab + 1, line@.len() as int))
                    &&& c == digits_value(line@.subrange(tab + 1, line@.len() as int))
                },
            None => forall|sp: int, tab: int|
                (0 <= sp < tab < line@.len() && line@[sp] == 32 && (forall|j: int|
                    0 <= j < sp ==> line@[j] != 32) && line@[tab] == 9 && (forall|j: int|
                    sp < j < tab ==> line@[j] != 9)) ==> !(line@.len() - tab - 1 >= 1 && all_digits(
                    line@.subrange(tab + 1, line@.len() as int),
                ) && digits_value(line@.subrange(tab + 1, line@.len() as int)) <= u64::MAX),
        },
{
    let n = line.len();
    let sp = match find_byte(line, 32) {
        None => {
            return None;
        },
        Some(sp) => sp,
    };
    let rest = vstd::slice::slice_subrange(line, sp + 1, n);
    proof {
        assert(forall|j: int| sp < j < line@.len() ==> line@[j] == rest@[j - sp - 1]);
    }
    let tab_rel = match find_byte(rest, 9) {
        None => {
            proof {
                assert forall|sp2: int, tab2: int|
                    !(0 <= sp2 < tab2 < line@.len() && line@[sp2] == 32 && (forall|j: int|
                        0 <= j < sp2 ==> line@[j] != 32) && line@[tab2] == 9 && (forall|j: int|
                        sp2 < j < tab2 ==> line@[j] != 9)) by {
                    if 0 <= sp2 < tab2 < line@.len() && line@[sp2] == 32 && (forall|j: int|
                        0 <= j < sp2 ==> line@[j] != 32) && line@[tab2] == 9 {
                        assert(sp2 == sp);
                        assert(line@[tab2] == rest@[tab2 - sp - 1]);
                    }
                }
            }
            return None;
        },
        Some(t) => t,
    };
    let tab = sp + 1 + tab_rel;
    let digits = vstd::slice::slice_subrange(line, tab + 1, n);
    proof {
        assert(line@[tab as int] == rest@[tab_rel as int]);
        assert(digits@ =~= line@.subrange(tab + 1, line@.len() as int));
    }
    let c = match parse_u64(digits) {
        None => {
            proof {
                assert forall|sp2: int, tab2: int|
                    (0 <= sp2 < tab2 < line@.len() && line@[sp2] == 32 && (forall|j: int|
                        0 <= j < sp2 ==> line@[j] != 32) && line@[tab2] == 9 && (forall|j: int|
                        sp2 < j < tab2 ==> line@[j] != 9)) implies !(line@.len() - tab2 - 1 >= 1
                    && all_digits(line@.subrange(tab2 + 1, line@.len() as int)) && digits_value(
                    line@.subrange(tab2 + 1, line@.len() as int),
                ) <= u64::MAX) by {
                    assert(sp2 == sp);
                    if tab2 != tab {
                        if tab2 < tab {
                            assert(rest@[tab2 - sp - 1] == 9);
                        } else {
                            assert(line@[tab as int] == 9);
                        }
                        assert(false);
                    }
                }
            }
            return None;
        },
        Some(c) => c,
    };
    let w1 = copy_range(line, 0, sp);
    let w2 = copy_range(line, sp + 1, tab);
    Some((w1, w2, c))
}

/// Copy the byte range `[a, b)`.
fn copy_range(s: &[u8], a: usize, b: usize) -> (r: Vec<u8>)
    requires
        a <= b <= s@.len(),
    ensures
        r@ == s@.subrange(a as int, b as int),
{
    let mut out: Vec<u8> = Vec::new();
    let mut i: usize = a;
    while i < b
        invariant
            a <= i <= b <= s@.len(),
            out@ == s@.subrange(a as int, i as int),
        decreases b - i,
    {
        out.push(s[i]);
        i += 1;
        proof {
            assert(out@ =~= s@.subrange(a as int, i as int));
        }
    }
    out
}

} // verus!
