//! Picks the font files, `.ttf` and `.otf`, out of a directory listing.
use vstd::prelude::*;
use vstd::string::*;

verus! {

/// The index of the last `c` in `s`, or -1 where `s` has none.
pub open spec fn last_index_of(s: Seq<char>, c: char) -> int
    decreases s.len(),
{
    if s.len() == 0 {
        -1
    } else if s.last() == c {
        s.len() - 1
    } else {
        last_index_of(s.drop_last(), c)
    }
}

/// `e` is `lit` with any of its letters in upper case; `lit` is lower case.
pub open spec fn eq_ignoring_case(e: Seq<char>, lit: Seq<char>) -> bool {
    &&& e.len() == lit.len()
    &&& forall|i: int|
        0 <= i < e.len() ==> #[trigger] e[i] == lit[i] || (e[i] as u32) + 32 == (lit[i] as u32)
            && 'a' <= lit[i] <= 'z'
}

/// An extension of a font file: `ttf` or `otf` in any case.
pub open spec fn is_font_extension(e: Seq<char>) -> bool {
    eq_ignoring_case(e, seq!['t', 't', 'f']) || eq_ignoring_case(e, seq!['o', 't', 'f'])
}

fn char_eq_ignoring_case(c: char, lower: char) -> (r: bool)
    requires
        'a' <= lower <= 'z',
    ensures
        r == (c == lower || (c as u32) + 32 == (lower as u32)),
{
    c == lower || (c as u32) + 32 == (lower as u32)
}

fn ext_matches(e: &str, a: char, b: char, c: char) -> (r: bool)
    requires
        'a' <= a <= 'z',
        'a' <= b <= 'z',
        'a' <= c <= 'z',
    ensures
        r == eq_ignoring_case(e@, seq![a, b, c]),
{
    let n = e.unicode_len();
    if n != 3 {
        return false;
    }
    let ghost lit = seq![a, b, c];
    let r = char_eq_ignoring_case(e.get_char(0), a) && char_eq_ignoring_case(e.get_char(1), b)
        && char_eq_ignoring_case(e.get_char(2), c);
    proof {
        if r {
            assert forall|i: int| 0 <= i < e@.len() implies #[trigger] e@[i] == lit[i] || (e@[i] as u32)
                + 32 == (lit[i] as u32) && 'a' <= lit[i] <= 'z' by {
                if i == 0 {
                } else if i == 1 {
                } else {
                }
            }
        } else {
            if eq_ignoring_case(e@, lit) {
                assert(lit[0] == a && lit[1] == b && lit[2] == c);
                assert(e@[0] == lit[0] || (e@[0] as u32) + 32 == (lit[0] as u32));
                assert(e@[1] == lit[1] || (e@[1] as u32) + 32 == (lit[1] as u32));
                assert(e@[2] == lit[2] || (e@[2] as u32) + 32 == (lit[2] as u32));
            }
        }
    }
    r
}

/// Splits a file name at its last `.` into stem and extension, where the
/// extension is `ttf` or `otf` in any case; any other name gives `None`.
pub fn get_font_file_stem_and_extension(file_name: &str) -> (r: Option<(String, String)>)
    ensures
        ({
            let s = file_name@;
            let p = last_index_of(s, '.');
            match r {
                Some((stem, ext)) => {
                    &&& p >= 0
                    &&& stem@ == s.subrange(0, p)
                    &&& ext@ == s.subrange(p + 1, s.len() as int)
                    &&& is_font_extension(ext@)
                },
                None => p < 0 || !is_font_extension(s.subrange(p + 1, s.len() as int)),
            }
        }),
{
    let n = file_name.unicode_len();
    let mut i: usize = n;
    assert(file_name@.take(n as int) =~= file_name@);
    while i > 0
        invariant
            i <= n == file_name@.len(),
            last_index_of(file_name@, '.') == last_index_of(file_name@.take(i as int), '.'),
        decreases i,
    {
        let c = file_name.get_char(i - 1);
        assert(file_name@.take(i as int).last() == c);
        if c == '.' {
            let pos = i - 1;
            let stem = file_name.substring_char(0, pos).to_owned();
            let ext = file_name.substring_char(pos + 1, n);
            if ext_matches(ext, 't', 't', 'f') || ext_matches(ext, 'o', 't', 'f') {
                return Some((stem, ext.to_owned()));
            } else {
                return None;
            }
        }
        assert(file_name@.take(i as int).drop_last() == file_name@.take(i - 1));
        i = i - 1;
    }
    assert(file_name@.take(0) =~= Seq::<char>::empty());
    None
}

} // verus!
