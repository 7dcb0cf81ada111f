//! Text: what the library needs of strings beyond comparing and joining them.
use vstd::prelude::*;
use vstd::string::*;
use vstd::utf8::{
    decode_utf8, decode_utf8_encode_utf8, decode_utf8_split, encode_utf8, encode_utf8_decode_utf8,
    encode_utf8_valid_utf8, is_char_boundary, valid_utf8_split,
};

verus! {

/// `String::push` appends one character.
pub assume_specification[ String::push ](s: &mut String, c: char)
    ensures
        final(s)@ == old(s)@.push(c),
;

/// `p` is a prefix of `s`.
pub open spec fn has_prefix(s: Seq<char>, p: Seq<char>) -> bool {
    p.len() <= s.len() && s.take(p.len() as int) == p
}

/// `p` is a suffix of `s`.
pub open spec fn has_suffix(s: Seq<char>, p: Seq<char>) -> bool {
    p.len() <= s.len() && s.skip(s.len() - p.len()) == p
}

/// The first `n` characters of `s`, or all of `s` where it has fewer.
pub open spec fn first_chars(s: Seq<char>, n: nat) -> Seq<char> {
    if s.len() <= n {
        s
    } else {
        s.take(n as int)
    }
}

/// The characters of each text.
pub open spec fn texts(v: Seq<String>) -> Seq<Seq<char>> {
    v.map_values(|s: String| s@)
}

/// The characters of a text that may be missing.
pub open spec fn optional_text(s: Option<String>) -> Option<Seq<char>> {
    match s {
        Some(x) => Some(x@),
        None => None,
    }
}

/// How often `t` occurs in `all`.
pub open spec fn occurrences(all: Seq<Seq<char>>, t: Seq<char>) -> nat
    decreases all.len(),
{
    if all.len() == 0 {
        0
    } else {
        occurrences(all.drop_last(), t) + if all.last() == t {
            1nat
        } else {
            0nat
        }
    }
}

/// What occurs at least once is there.
pub proof fn occurs_iff_contained(all: Seq<Seq<char>>, t: Seq<char>)
    ensures
        occurrences(all, t) > 0 <==> all.contains(t),
    decreases all.len(),
{
    if all.len() > 0 {
        let front = all.drop_last();
        occurs_iff_contained(front, t);
        if front.contains(t) {
            let i = choose|i: int| 0 <= i < front.len() && front[i] == t;
            assert(all[i] == t);
        }
        if all.last() == t {
            assert(all[all.len() - 1] == t);
        }
        if all.contains(t) && all.last() != t {
            let i = choose|i: int| 0 <= i < all.len() && all[i] == t;
            assert(front[i] == t);
        }
    }
}

/// A longer prefix of a list holds a text at least as often as a shorter one.
pub proof fn occurrences_grow(all: Seq<Seq<char>>, t: Seq<char>, i: int)
    requires
        0 <= i <= all.len(),
    ensures
        occurrences(all.take(i), t) <= occurrences(all, t),
    decreases all.len() - i,
{
    if i < all.len() {
        occurrences_grow(all, t, i + 1);
        assert(all.take(i + 1).drop_last() =~= all.take(i));
    } else {
        assert(all.take(i) =~= all);
    }
}

/// Some text of the list holds the same characters as `t`.
pub fn contains_text(all: &Vec<String>, t: &str) -> (r: bool)
    ensures
        r == texts(all@).contains(t@),
{
    let mut i: usize = 0;
    while i < all.len()
        invariant
            i <= all@.len(),
            forall|j: int| 0 <= j < i ==> (#[trigger] texts(all@)[j]) != t@,
        decreases all@.len() - i,
    {
        assert(texts(all@)[i as int] == all@[i as int]@);
        if same_text(all[i].as_str(), t) {
            return true;
        }
        i = i + 1;
    }
    false
}

/// A copy of a list of texts.
pub fn copy_texts(all: &Vec<String>) -> (r: Vec<String>)
    ensures
        texts(r@) == texts(all@),
{
    let mut r: Vec<String> = Vec::new();
    let mut i: usize = 0;
    while i < all.len()
        invariant
            i <= all@.len(),
            texts(r@) == texts(all@).take(i as int),
        decreases all@.len() - i,
    {
        let ghost before = r@;
        r.push(all[i].clone());
        proof {
            assert(texts(r@) =~= texts(before).push(all@[i as int]@));
            assert(texts(all@).take(i + 1) =~= texts(all@).take(i as int).push(all@[i as int]@));
        }
        i = i + 1;
    }
    proof {
        assert(texts(all@).take(i as int) =~= texts(all@));
    }
    r
}

/// A copy of a text that may be missing.
pub fn copy_optional_text(s: &Option<String>) -> (r: Option<String>)
    ensures
        optional_text(r) == optional_text(*s),
{
    match s {
        Some(x) => Some(x.clone()),
        None => None,
    }
}

/// Two texts hold the same characters.
pub fn same_text(a: &str, b: &str) -> (r: bool)
    ensures
        r == (a@ == b@),
{
    a.to_owned() == b.to_owned()
}

/// `p` is a prefix of `s`.
pub fn starts_with(s: &str, p: &str) -> (r: bool)
    ensures
        r == has_prefix(s@, p@),
{
    let n: usize = p.unicode_len();
    if s.unicode_len() < n {
        return false;
    }
    same_text(s.substring_char(0, n), p)
}

/// `p` is a suffix of `s`.
pub fn ends_with(s: &str, p: &str) -> (r: bool)
    ensures
        r == has_suffix(s@, p@),
{
    let n: usize = p.unicode_len();
    let m: usize = s.unicode_len();
    if m < n {
        return false;
    }
    same_text(s.substring_char(m - n, m), p)
}

/// The first `n` characters of `s`, or all of `s` where it has fewer.
pub fn take_chars(s: &str, n: usize) -> (r: String)
    ensures
        r@ == first_chars(s@, n as nat),
{
    if s.unicode_len() <= n {
        s.to_owned()
    } else {
        s.substring_char(0, n).to_owned()
    }
}

/// `a` followed by `b`.
pub fn joined(a: &str, b: &str) -> (r: String)
    ensures
        r@ == a@ + b@,
{
    let mut r: String = a.to_owned();
    r.append(b);
    r
}

/// The number of bytes that `s` takes.
pub open spec fn byte_len(s: Seq<char>) -> nat {
    encode_utf8(s).len()
}

/// The number of bytes that `s` takes.
pub fn count_bytes(s: &str) -> (r: usize)
    ensures
        r == byte_len(s@),
{
    s.as_bytes().len()
}

/// `s` can be cut after `n` bytes without cutting a character.
pub open spec fn can_cut(s: Seq<char>, n: nat) -> bool {
    n <= byte_len(s) && is_char_boundary(encode_utf8(s), n as int)
}

/// The characters of `s` that its first `n` bytes hold.
pub open spec fn first_bytes(s: Seq<char>, n: nat) -> Seq<char> {
    decode_utf8(encode_utf8(s).subrange(0, n as int))
}

/// The characters of `s` that its first `n` bytes hold.
pub fn take_bytes(s: &str, n: usize) -> (r: String)
    requires
        can_cut(s@, n as nat),
    ensures
        r@ == first_bytes(s@, n as nat),
{
    let parts = s.split_at(n);
    proof {
        encode_utf8_decode_utf8(parts.0@);
    }
    parts.0.to_owned()
}

/// `p` stands somewhere in `s`.
pub open spec fn has_part(s: Seq<char>, p: Seq<char>) -> bool {
    exists|i: int| 0 <= i && i + p.len() <= s.len() && #[trigger] s.subrange(i, i + p.len()) == p
}

/// `p` stands somewhere in `s`.
pub fn contains_part(s: &str, p: &str) -> (r: bool)
    ensures
        r == has_part(s@, p@),
{
    let n: usize = p.unicode_len();
    let m: usize = s.unicode_len();
    if n > m {
        return false;
    }
    let mut i: usize = 0;
    while i <= m - n
        invariant
            n == p@.len(),
            m == s@.len(),
            n <= m,
            i <= m - n + 1,
            forall|j: int| 0 <= j < i ==> #[trigger] s@.subrange(j, j + n) != p@,
        decreases m - n + 1 - i,
    {
        if same_text(s.substring_char(i, i + n), p) {
            assert(s@.subrange(i as int, i + p@.len()) == p@);
            return true;
        }
        if i == m - n {
            return false;
        }
        i = i + 1;
    }
    false
}

/// `s` without the characters `c` at its end.
pub open spec fn without_end(s: Seq<char>, c: char) -> Seq<char>
    decreases s.len(),
{
    if s.len() > 0 && s.last() == c {
        without_end(s.drop_last(), c)
    } else {
        s
    }
}

/// `s` without the characters `c` at its end.
pub fn trim_end(s: &str, c: char) -> (r: String)
    ensures
        r@ == without_end(s@, c),
{
    let mut n: usize = s.unicode_len();
    proof {
        assert(s@.take(n as int) =~= s@);
    }
    while n > 0 && s.get_char(n - 1) == c
        invariant
            n <= s@.len(),
            without_end(s@, c) == without_end(s@.take(n as int), c),
        decreases n,
    {
        proof {
            assert(s@.take(n as int).drop_last() =~= s@.take(n - 1));
        }
        n = n - 1;
    }
    proof {
        if n > 0 {
            assert(s@.take(n as int).last() == s@[n - 1]);
        }
    }
    s.substring_char(0, n).to_owned()
}

/// What stands in `s` before the first character `c`, or all of `s` where there is none.
pub open spec fn before_first(s: Seq<char>, c: char) -> Seq<char>
    decreases s.len(),
{
    if s.len() == 0 || s[0] == c {
        Seq::empty()
    } else {
        seq![s[0]] + before_first(s.skip(1), c)
    }
}

/// What stands in `s` before the first character `c`, or all of `s` where there is none.
pub fn take_before(s: &str, c: char) -> (r: String)
    ensures
        r@ == before_first(s@, c),
{
    let n: usize = s.unicode_len();
    let mut i: usize = 0;
    proof {
        assert(s@.take(0) + before_first(s@.skip(0), c) =~= before_first(s@, c)) by {
            assert(s@.skip(0) =~= s@);
        }
    }
    while i < n && s.get_char(i) != c
        invariant
            i <= n,
            n == s@.len(),
            before_first(s@, c) == s@.take(i as int) + before_first(s@.skip(i as int), c),
        decreases n - i,
    {
        proof {
            let rest = s@.skip(i as int);
            assert(rest[0] == s@[i as int]);
            assert(rest.skip(1) =~= s@.skip(i + 1));
            assert(s@.take(i as int) + (seq![rest[0]] + before_first(rest.skip(1), c)) =~= s@.take(
                i + 1,
            ) + before_first(s@.skip(i + 1), c));
        }
        i = i + 1;
    }
    proof {
        let rest = s@.skip(i as int);
        if i < n {
            assert(rest[0] == s@[i as int]);
        }
        assert(before_first(rest, c) =~= Seq::<char>::empty());
        assert(before_first(s@, c) =~= s@.take(i as int));
    }
    s.substring_char(0, i).to_owned()
}

/// A character with the Unicode property `White_Space`.
pub open spec fn is_white(c: char) -> bool {
    let n = c as u32;
    ||| 0x9 <= n <= 0xd
    ||| n == 0x20
    ||| n == 0x85
    ||| n == 0xa0
    ||| n == 0x1680
    ||| 0x2000 <= n <= 0x200a
    ||| n == 0x2028
    ||| n == 0x2029
    ||| n == 0x202f
    ||| n == 0x205f
    ||| n == 0x3000
}

/// `s` without the white space at its beginning.
pub open spec fn without_leading_white(s: Seq<char>) -> Seq<char>
    decreases s.len(),
{
    if s.len() > 0 && is_white(s[0]) {
        without_leading_white(s.skip(1))
    } else {
        s
    }
}

/// `s` without the white space at its end.
pub open spec fn without_trailing_white(s: Seq<char>) -> Seq<char>
    decreases s.len(),
{
    if s.len() > 0 && is_white(s.last()) {
        without_trailing_white(s.drop_last())
    } else {
        s
    }
}

/// `s` without the white space at both ends.
pub open spec fn trimmed(s: Seq<char>) -> Seq<char> {
    without_trailing_white(without_leading_white(s))
}

/// A character with the Unicode property `White_Space`.
pub fn is_white_char(c: char) -> (r: bool)
    ensures
        r == is_white(c),
{
    let n: u32 = c as u32;
    (0x9 <= n && n <= 0xd) || n == 0x20 || n == 0x85 || n == 0xa0 || n == 0x1680 || (0x2000 <= n
        && n <= 0x200a) || n == 0x2028 || n == 0x2029 || n == 0x202f || n == 0x205f || n == 0x3000
}

/// Takes the white space off both ends.
pub fn trim(s: &str) -> (r: String)
    ensures
        r@ == trimmed(s@),
{
    let n: usize = s.unicode_len();
    let mut i: usize = 0;
    proof {
        assert(s@.skip(0) =~= s@);
    }
    while i < n && is_white_char(s.get_char(i))
        invariant
            i <= n,
            n == s@.len(),
            without_leading_white(s@) == without_leading_white(s@.skip(i as int)),
        decreases n - i,
    {
        proof {
            assert(s@.skip(i as int)[0] == s@[i as int]);
            assert(s@.skip(i as int).skip(1) =~= s@.skip(i + 1));
        }
        i = i + 1;
    }
    let ghost rest = s@.skip(i as int);
    proof {
        if i < n {
            assert(rest[0] == s@[i as int]);
        }
        assert(without_leading_white(s@) == rest);
    }
    let mut j: usize = n;
    proof {
        assert(rest.take(j - i) =~= rest);
    }
    while j > i && is_white_char(s.get_char(j - 1))
        invariant
            i <= j <= n,
            n == s@.len(),
            rest == s@.skip(i as int),
            without_trailing_white(rest) == without_trailing_white(rest.take(j - i)),
        decreases j,
    {
        proof {
            assert(rest.take(j - i).last() == s@[j - 1]);
            assert(rest.take(j - i).drop_last() =~= rest.take(j - 1 - i));
        }
        j = j - 1;
    }
    proof {
        if j > i {
            assert(rest.take(j - i).last() == s@[j - 1]);
        }
        assert(rest.take(j - i) =~= s@.subrange(i as int, j as int));
    }
    s.substring_char(i, j).to_owned()
}

/// What `str::to_lowercase` makes of a text.
pub uninterp spec fn lowercase(s: Seq<char>) -> Seq<char>;

/// Writes a text in lower case with `str::to_lowercase`.
#[verifier::external_body]
pub(crate) fn to_lower(s: &str) -> (r: String)
    ensures
        r@ == lowercase(s@),
{
    s.to_lowercase()
}

/// A text begins with a prefix just when something can be put behind the prefix to make the text.
pub proof fn prefixes_begin(s: Seq<char>, p: Seq<char>)
    ensures
        has_prefix(s, p) <==> exists|rest: Seq<char>| #[trigger] (p + rest) == s,
{
    if has_prefix(s, p) {
        assert(p + s.skip(p.len() as int) =~= s);
    }
    if exists|rest: Seq<char>| #[trigger] (p + rest) == s {
        let rest = choose|rest: Seq<char>| #[trigger] (p + rest) == s;
        assert(s.take(p.len() as int) =~= p);
    }
}

/// A text ends with a suffix just when something can be put before the suffix to make the text.
pub proof fn suffixes_end(s: Seq<char>, p: Seq<char>)
    ensures
        has_suffix(s, p) <==> exists|start: Seq<char>| #[trigger] (start + p) == s,
{
    if has_suffix(s, p) {
        assert(s.take(s.len() - p.len()) + p =~= s);
    }
    if exists|start: Seq<char>| #[trigger] (start + p) == s {
        let start = choose|start: Seq<char>| #[trigger] (start + p) == s;
        assert(s.skip(s.len() - p.len()) =~= p);
    }
}

/// The first characters of a text begin it, and are as many as were asked for or as there are.
pub proof fn first_chars_begin(s: Seq<char>, n: nat)
    ensures
        first_chars(s, n).len() == if s.len() < n {
            s.len()
        } else {
            n
        },
        forall|i: int| 0 <= i < first_chars(s, n).len() ==> #[trigger] first_chars(s, n)[i] == s[i],
{
}

/// A text occurs as often as it stands in the list.
pub proof fn occurrences_are_all_counted(all: Seq<Seq<char>>, t: Seq<char>)
    ensures
        occurrences(all, t) == all.filter(|x: Seq<char>| x == t).len(),
    decreases all.len(),
{
    reveal(Seq::filter);
    if all.len() > 0 {
        occurrences_are_all_counted(all.drop_last(), t);
    }
}

/// A part stands in a text just when something can be put before it and behind it to make the
/// text.
pub proof fn parts_stand_within(s: Seq<char>, p: Seq<char>)
    ensures
        has_part(s, p) <==> exists|a: Seq<char>, b: Seq<char>| #[trigger] (a + p + b) == s,
{
    if has_part(s, p) {
        let i = choose|i: int|
            0 <= i && i + p.len() <= s.len() && #[trigger] s.subrange(i, i + p.len()) == p;
        assert(s.take(i) + p + s.skip(i + p.len()) =~= s);
    }
    if exists|a: Seq<char>, b: Seq<char>| #[trigger] (a + p + b) == s {
        let (a, b) = choose|a: Seq<char>, b: Seq<char>| #[trigger] (a + p + b) == s;
        let i = a.len() as int;
        assert(s.subrange(i, i + p.len()) =~= p);
    }
}

/// Only the characters `c` at the end are taken off, and all of them.
pub proof fn only_the_end_is_taken_off(s: Seq<char>, c: char)
    ensures
        ({
            let r = without_end(s, c);
            &&& r.len() <= s.len()
            &&& r == s.take(r.len() as int)
            &&& forall|i: int| r.len() <= i < s.len() ==> #[trigger] s[i] == c
            &&& r.len() > 0 ==> r.last() != c
        }),
    decreases s.len(),
{
    if s.len() > 0 && s.last() == c {
        only_the_end_is_taken_off(s.drop_last(), c);
        let r = without_end(s, c);
        assert(s.drop_last().take(r.len() as int) =~= s.take(r.len() as int));
        assert forall|i: int| r.len() <= i < s.len() implies #[trigger] s[i] == c by {
            if i < s.len() - 1 {
                assert(s.drop_last()[i] == c);
            }
        }
    } else {
        assert(s.take(s.len() as int) =~= s);
    }
}

/// What stands before the first `c` begins the text, holds no `c`, and ends where one stands or
/// the text does.
pub proof fn nothing_before_the_first(s: Seq<char>, c: char)
    ensures
        ({
            let r = before_first(s, c);
            &&& r.len() <= s.len()
            &&& r == s.take(r.len() as int)
            &&& forall|i: int| 0 <= i < r.len() ==> #[trigger] r[i] != c
            &&& r.len() < s.len() ==> s[r.len() as int] == c
        }),
    decreases s.len(),
{
    if s.len() > 0 && s[0] != c {
        nothing_before_the_first(s.skip(1), c);
        let t = before_first(s.skip(1), c);
        let r = before_first(s, c);
        assert(r =~= s.take(r.len() as int));
        assert forall|i: int| 0 <= i < r.len() implies #[trigger] r[i] != c by {
            if i > 0 {
                assert(r[i] == t[i - 1]);
            }
        }
        if r.len() < s.len() {
            assert(s.skip(1)[t.len() as int] == s[r.len() as int]);
        }
    } else {
        assert(before_first(s, c) =~= s.take(0));
    }
}

proof fn leading_white_goes(s: Seq<char>)
    ensures
        ({
            let r = without_leading_white(s);
            &&& r.len() <= s.len()
            &&& r == s.skip(s.len() - r.len())
            &&& forall|i: int| 0 <= i < s.len() - r.len() ==> is_white(#[trigger] s[i])
            &&& r.len() > 0 ==> !is_white(r[0])
        }),
    decreases s.len(),
{
    if s.len() > 0 && is_white(s[0]) {
        leading_white_goes(s.skip(1));
        let r = without_leading_white(s);
        assert(r =~= s.skip(s.len() - r.len()));
        assert forall|i: int| 0 <= i < s.len() - r.len() implies is_white(#[trigger] s[i]) by {
            if i > 0 {
                assert(s.skip(1)[i - 1] == s[i]);
            }
        }
    } else {
        assert(s.skip(0) =~= s);
    }
}

proof fn trailing_white_goes(s: Seq<char>)
    ensures
        ({
            let r = without_trailing_white(s);
            &&& r.len() <= s.len()
            &&& r == s.take(r.len() as int)
            &&& forall|i: int| r.len() <= i < s.len() ==> is_white(#[trigger] s[i])
            &&& r.len() > 0 ==> !is_white(r.last())
        }),
    decreases s.len(),
{
    if s.len() > 0 && is_white(s.last()) {
        trailing_white_goes(s.drop_last());
        let r = without_trailing_white(s);
        assert(r =~= s.take(r.len() as int));
        assert forall|i: int| r.len() <= i < s.len() implies is_white(#[trigger] s[i]) by {
            if i < s.len() - 1 {
                assert(s.drop_last()[i] == s[i]);
            }
        }
    } else {
        assert(s.take(s.len() as int) =~= s);
    }
}

/// Only white space is taken off both ends of a text, and all of it.
pub proof fn only_white_space_is_taken_off(s: Seq<char>)
    ensures
        exists|i: int, j: int|
            0 <= i <= j <= s.len() && trimmed(s) == #[trigger] s.subrange(i, j) && (forall|k: int|
                0 <= k < i || j <= k < s.len() ==> is_white(#[trigger] s[k])) && (i < j
                ==> !is_white(s[i]) && !is_white(s[j - 1])),
{
    leading_white_goes(s);
    let r = without_leading_white(s);
    trailing_white_goes(r);
    let t = trimmed(s);
    let i = s.len() - r.len();
    let j = i + t.len();
    assert(t =~= s.subrange(i, j));
    assert forall|k: int| 0 <= k < i || j <= k < s.len() implies is_white(#[trigger] s[k]) by {
        if j <= k {
            assert(r[k - i] == s[k]);
        }
    }
    if i < j {
        assert(t[0] == s[i] && t.last() == s[j - 1]);
        assert(r[0] == t[0]);
    }
}

/// White space is tabs, line ends and the spaces of all widths; letters, digits and signs are
/// not.
pub proof fn white_space_is_blank(c: char)
    ensures
        is_white(c) <==> seq![
            '\u{9}', '\u{a}', '\u{b}', '\u{c}', '\u{d}', '\u{20}', '\u{85}', '\u{a0}',
            '\u{1680}', '\u{2000}', '\u{2001}', '\u{2002}', '\u{2003}', '\u{2004}', '\u{2005}',
            '\u{2006}', '\u{2007}', '\u{2008}', '\u{2009}', '\u{200a}', '\u{2028}', '\u{2029}',
            '\u{202f}', '\u{205f}', '\u{3000}',
        ].contains(c),
{
    let all = seq![
        '\u{9}', '\u{a}', '\u{b}', '\u{c}', '\u{d}', '\u{20}', '\u{85}', '\u{a0}',
        '\u{1680}', '\u{2000}', '\u{2001}', '\u{2002}', '\u{2003}', '\u{2004}', '\u{2005}',
        '\u{2006}', '\u{2007}', '\u{2008}', '\u{2009}', '\u{200a}', '\u{2028}', '\u{2029}',
        '\u{202f}', '\u{205f}', '\u{3000}',
    ];
    let n = c as u32;
    let at: int = if 0x9 <= n <= 0xd {
        n - 0x9
    } else if n == 0x20 {
        5
    } else if n == 0x85 {
        6
    } else if n == 0xa0 {
        7
    } else if n == 0x1680 {
        8
    } else if 0x2000 <= n <= 0x200a {
        9 + n - 0x2000
    } else if n == 0x2028 {
        20
    } else if n == 0x2029 {
        21
    } else if n == 0x202f {
        22
    } else if n == 0x205f {
        23
    } else {
        24
    };
    if is_white(c) {
        assert(all[at] == c);
    }
}

/// What the first bytes of a text hold begins the text, and takes exactly those bytes.
pub proof fn first_bytes_begin(s: Seq<char>, n: nat)
    requires
        can_cut(s, n),
    ensures
        byte_len(first_bytes(s, n)) == n,
        exists|rest: Seq<char>| #[trigger] (first_bytes(s, n) + rest) == s,
{
    let bytes = encode_utf8(s);
    encode_utf8_valid_utf8(s);
    encode_utf8_decode_utf8(s);
    valid_utf8_split(bytes, n as int);
    decode_utf8_split(bytes, n as int);
    decode_utf8_encode_utf8(bytes.subrange(0, n as int));
    let rest = decode_utf8(bytes.subrange(n as int, bytes.len() as int));
    assert(first_bytes(s, n) + rest == s);
}

} // verus!
