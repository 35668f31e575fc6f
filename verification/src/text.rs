//! Text helpers: searching in names, upper case, labels and decimal numbers.

use vstd::prelude::*;

verus! {

/// `needle` occurs in `hay` as a run of consecutive characters.
pub open spec fn occurs_in(needle: Seq<char>, hay: Seq<char>) -> bool {
    exists|i: int| 0 <= i && i + needle.len() <= hay.len() && #[trigger] hay.subrange(i, i + needle.len()) == needle
}

/// `needle` occurs in `hay` starting at one of the positions below `k`.
pub open spec fn occurs_before(needle: Seq<char>, hay: Seq<char>, k: int) -> bool {
    exists|i: int| 0 <= i < k && i + needle.len() <= hay.len() && #[trigger] hay.subrange(i, i + needle.len()) == needle
}

/// The upper-case form of a text, as `str::to_uppercase` gives it (the
/// Unicode upper-case mapping of each character, which may change the length).
pub uninterp spec fn uppercase(s: Seq<char>) -> Seq<char>;

/// Every character is ASCII.
pub open spec fn all_ascii(s: Seq<char>) -> bool {
    forall|i: int| 0 <= i < s.len() ==> (#[trigger] s[i] as u32) < 128
}

/// The ASCII upper-case form of one character.
pub open spec fn ascii_upper(c: char) -> char {
    if 'a' <= c && c <= 'z' { ((c as u32) - 32) as char } else { c }
}

/// The decimal digits of `n`, most significant first, with no leading zero
/// (a single `0` for zero).
pub open spec fn decimal(n: nat) -> Seq<char>
    decreases n,
{
    if n < 10 {
        seq![digit_char(n)]
    } else {
        decimal(n / 10).push(digit_char(n % 10))
    }
}

/// The character of a decimal digit.
pub open spec fn digit_char(d: nat) -> char {
    if d == 0 { '0' } else if d == 1 { '1' } else if d == 2 { '2' } else if d == 3 { '3' }
    else if d == 4 { '4' } else if d == 5 { '5' } else if d == 6 { '6' } else if d == 7 { '7' }
    else if d == 8 { '8' } else { '9' }
}

/// `str::to_uppercase`.  The result is the upper-case form of the argument;
/// on an ASCII text that is each letter `a`..`z` replaced by `A`..`Z` and
/// every other character kept.  What it is on other texts is left to the
/// Unicode tables of the standard library and is not stated here.
#[verifier::external_body]
pub(crate) fn to_upper(s: &str) -> (r: String)
    ensures
        r@ == uppercase(s@),
        all_ascii(s@) ==> r@ == s@.map_values(|c: char| ascii_upper(c)),
{
    s.to_uppercase()
}

/// `usize::to_string`: the decimal digits of the number.
#[verifier::external_body]
pub(crate) fn usize_text(n: usize) -> (r: String)
    ensures
        r@ == decimal(n as nat),
{
    n.to_string()
}

/// The characters of a text.
pub fn chars_of(s: &str) -> (r: Vec<char>)
    ensures
        r@ == s@,
{
    let len = s.unicode_len();
    let mut out: Vec<char> = Vec::new();
    let mut i: usize = 0;
    while i < len
        invariant
            len == s@.len(),
            i <= len,
            out@ == s@.take(i as int),
        decreases len - i,
    {
        let c = s.get_char(i);
        out.push(c);
        proof { assert(out@ =~= s@.take(i + 1)); }
        i = i + 1;
    }
    proof { assert(s@.take(i as int) =~= s@); }
    out
}

/// Whether `needle` occurs in `hay`.
pub fn contains_text(hay: &str, needle: &str) -> (b: bool)
    ensures
        b == occurs_in(needle@, hay@),
{
    let h = chars_of(hay);
    let nd = chars_of(needle);
    let hl = h.len();
    let nl = nd.len();
    if nl > hl {
        proof {
            assert forall|i: int| !(0 <= i && i + nd@.len() <= h@.len() && #[trigger] h@.subrange(i, i + nd@.len()) == nd@) by {}
        }
        return false;
    }
    let mut i: usize = 0;
    while i <= hl - nl
        invariant
            h@ == hay@,
            nd@ == needle@,
            hl == h@.len(),
            nl == nd@.len(),
            nl <= hl,
            i <= hl - nl + 1,
            !occurs_before(nd@, h@, i as int),
        decreases hl - nl + 1 - i,
    {
        let mut j: usize = 0;
        let mut same = true;
        proof { assert(h@.subrange(i as int, i as int) =~= nd@.take(0)); }
        while j < nl
            invariant
                h@ == hay@,
                nd@ == needle@,
                hl == h@.len(),
                nl == nd@.len(),
                i + nl <= hl,
                j <= nl,
                same == (h@.subrange(i as int, i + j) == nd@.take(j as int)),
            decreases nl - j,
        {
            proof {
                assert(h@.subrange(i as int, i + j + 1) =~= h@.subrange(i as int, i + j).push(h@[i + j]));
                assert(nd@.take(j + 1) =~= nd@.take(j as int).push(nd@[j as int]));
                if h@.subrange(i as int, i + j + 1) == nd@.take(j + 1) {
                    assert(h@.subrange(i as int, i + j + 1)[j as int] == nd@.take(j + 1)[j as int]);
                    assert(h@.subrange(i as int, i + j) =~= h@.subrange(i as int, i + j + 1).take(j as int));
                    assert(nd@.take(j as int) =~= nd@.take(j + 1).take(j as int));
                }
            }
            if h[i + j] != nd[j] {
                same = false;
            }
            j = j + 1;
        }
        proof { assert(nd@.take(nl as int) =~= nd@); }
        if same {
            return true;
        }
        proof {
            assert forall|k: int| 0 <= k < i + 1 && k + nd@.len() <= h@.len()
                implies #[trigger] h@.subrange(k, k + nd@.len()) != nd@ by {
                if k < i {
                    assert(!occurs_before(nd@, h@, i as int));
                }
            }
        }
        if i == hl - nl {
            return false;
        }
        i = i + 1;
    }
    false
}

/// The label of a node: IED name, a slash, access point name.
pub open spec fn label(ied: Seq<char>, ap: Seq<char>) -> Seq<char> {
    ied + "/"@ + ap
}

/// Builds the label `ied/ap`.
pub fn make_label(ied: &String, ap: &String) -> (r: String)
    ensures
        r@ == label(ied@, ap@),
{
    let mut s = ied.clone();
    s.append("/");
    s.append(ap.as_str());
    s
}

/// Whether a text is exactly `lit`.
pub fn text_is(s: &str, lit: &str) -> (b: bool)
    ensures
        b == (s@ == lit@),
{
    let a = chars_of(s);
    let c = chars_of(lit);
    if a.len() != c.len() {
        return false;
    }
    let mut i: usize = 0;
    while i < a.len()
        invariant
            a@ == s@,
            c@ == lit@,
            a@.len() == c@.len(),
            i <= a@.len(),
            forall|k: int| 0 <= k < i ==> a@[k] == c@[k],
        decreases a@.len() - i,
    {
        if a[i] != c[i] {
            return false;
        }
        i = i + 1;
    }
    assert(a@ =~= c@);
    true
}

} // verus!
