//! The keys under which region files and tile images are stored.
//!
//! A region file has the key `worlds/<world>/<dimension>/r.<x>.<z>.mca`,
//! where world and dimension are made of letters, digits, `-` and `_`, and
//! the two coordinates are decimal integers.

use vstd::prelude::*;
use vstd::string::{StrSliceExecFns, StringExecFns};

verus! {

/// A decimal digit.
pub open spec fn is_digit(c: char) -> bool {
    '0' <= c <= '9'
}

/// A character of a world's or a dimension's name.
pub open spec fn is_name_char(c: char) -> bool {
    c == '-' || c == '_' || is_digit(c) || 'A' <= c <= 'Z' || 'a' <= c <= 'z'
}

/// A character of the text of a coordinate.
pub open spec fn is_coordinate_char(c: char) -> bool {
    c == '-' || is_digit(c)
}

/// A name: one or more name characters.
pub open spec fn is_name(s: Seq<char>) -> bool {
    s.len() > 0 && forall|i: int| 0 <= i < s.len() ==> is_name_char(#[trigger] s[i])
}

/// The text of a coordinate as a key holds it: one or more coordinate
/// characters.
pub open spec fn is_coordinate_text(s: Seq<char>) -> bool {
    s.len() > 0 && forall|i: int| 0 <= i < s.len() ==> is_coordinate_char(#[trigger] s[i])
}

/// One or more decimal digits.
pub open spec fn is_digits(s: Seq<char>) -> bool {
    s.len() > 0 && forall|i: int| 0 <= i < s.len() ==> is_digit(#[trigger] s[i])
}

/// The number that a run of decimal digits denotes.
pub open spec fn digits_value(s: Seq<char>) -> int
    decreases s.len(),
{
    if s.len() == 0 {
        0
    } else {
        digits_value(s.drop_last()) * 10 + (s.last() as int - '0' as int)
    }
}

/// The integer that a text denotes: decimal digits, with `-` before them
/// for a negative number. Any other text denotes none.
pub open spec fn coordinate_value(s: Seq<char>) -> Option<int> {
    if is_digits(s) {
        Some(digits_value(s))
    } else if s.len() > 0 && s[0] == '-' && is_digits(s.subrange(1, s.len() as int)) {
        Some(-digits_value(s.subrange(1, s.len() as int)))
    } else {
        None
    }
}

/// The key of a region file, from the texts of its four parts.
pub open spec fn region_key_of(
    world: Seq<char>,
    dimension: Seq<char>,
    x: Seq<char>,
    z: Seq<char>,
) -> Seq<char> {
    seq!['w', 'o', 'r', 'l', 'd', 's', '/'] + world + seq!['/'] + dimension + seq!['/', 'r', '.']
        + x + seq!['.'] + z + seq!['.', 'm', 'c', 'a']
}

/// `key` is the key of a region file with these four parts.
#[verifier::opaque]
pub open spec fn is_region_key(
    key: Seq<char>,
    world: Seq<char>,
    dimension: Seq<char>,
    x: Seq<char>,
    z: Seq<char>,
) -> bool {
    &&& key == region_key_of(world, dimension, x, z)
    &&& is_name(world)
    &&& is_name(dimension)
    &&& is_coordinate_text(x)
    &&& is_coordinate_text(z)
}

/// `key` is a region key whose parts end at the positions `a`, `b`, `c` and
/// `e`.
spec fn splits_at(key: Seq<char>, a: int, b: int, c: int, e: int) -> bool {
    &&& 7 < a < b - 1
    &&& b + 3 < c < e - 1
    &&& e + 4 == key.len()
    &&& key.subrange(0, 7) == seq!['w', 'o', 'r', 'l', 'd', 's', '/']
    &&& forall|i: int| 7 <= i < a ==> is_name_char(#[trigger] key[i])
    &&& key[a] == '/'
    &&& forall|i: int| a + 1 <= i < b ==> is_name_char(#[trigger] key[i])
    &&& key.subrange(b, b + 3) == seq!['/', 'r', '.']
    &&& forall|i: int| b + 3 <= i < c ==> is_coordinate_char(#[trigger] key[i])
    &&& key[c] == '.'
    &&& forall|i: int| c + 1 <= i < e ==> is_coordinate_char(#[trigger] key[i])
    &&& key.subrange(e, e + 4) == seq!['.', 'm', 'c', 'a']
}

/// Where the parts of a region key end: the world's name, the dimension's
/// name, and the texts of the two coordinates.
spec fn part_ends(
    world: Seq<char>,
    dimension: Seq<char>,
    x: Seq<char>,
    z: Seq<char>,
) -> (int, int, int, int) {
    let a = 7 + world.len() as int;
    let b = a + 1 + dimension.len() as int;
    let c = b + 3 + x.len() as int;
    let e = c + 1 + z.len() as int;
    (a, b, c, e)
}

/// The parts of a region key end where their lengths say.
proof fn lemma_key_positions(
    key: Seq<char>,
    world: Seq<char>,
    dimension: Seq<char>,
    x: Seq<char>,
    z: Seq<char>,
)
    requires
        is_region_key(key, world, dimension, x, z),
    ensures
        ({
            let (a, b, c, e) = part_ends(world, dimension, x, z);
            &&& splits_at(key, a, b, c, e)
            &&& world == key.subrange(7, a)
            &&& dimension == key.subrange(a + 1, b)
            &&& x == key.subrange(b + 3, c)
            &&& z == key.subrange(c + 1, e)
        }),
{
    reveal(is_region_key);
    let (a, b, c, e) = part_ends(world, dimension, x, z);
    assert(key.len() == e + 4);
    assert(key.subrange(0, 7) =~= seq!['w', 'o', 'r', 'l', 'd', 's', '/']);
    assert forall|i: int| 7 <= i < a implies is_name_char(#[trigger] key[i]) by {
        assert(key[i] == world[i - 7]);
    }
    assert forall|i: int| a + 1 <= i < b implies is_name_char(#[trigger] key[i]) by {
        assert(key[i] == dimension[i - a - 1]);
    }
    assert forall|i: int| b + 3 <= i < c implies is_coordinate_char(#[trigger] key[i]) by {
        assert(key[i] == x[i - b - 3]);
    }
    assert forall|i: int| c + 1 <= i < e implies is_coordinate_char(#[trigger] key[i]) by {
        assert(key[i] == z[i - c - 1]);
    }
    assert(key.subrange(b, b + 3) =~= seq!['/', 'r', '.']);
    assert(key.subrange(e, e + 4) =~= seq!['.', 'm', 'c', 'a']);
    assert(world =~= key.subrange(7, a));
    assert(dimension =~= key.subrange(a + 1, b));
    assert(x =~= key.subrange(b + 3, c));
    assert(z =~= key.subrange(c + 1, e));
}

/// A key that splits at four positions is the region key of the parts
/// between them.
proof fn lemma_split_key(key: Seq<char>, a: int, b: int, c: int, e: int)
    requires
        splits_at(key, a, b, c, e),
    ensures
        is_region_key(
            key,
            key.subrange(7, a),
            key.subrange(a + 1, b),
            key.subrange(b + 3, c),
            key.subrange(c + 1, e),
        ),
{
    reveal(is_region_key);
    let world = key.subrange(7, a);
    let dimension = key.subrange(a + 1, b);
    let x = key.subrange(b + 3, c);
    let z = key.subrange(c + 1, e);
    assert forall|i: int| 0 <= i < key.len() implies key[i] == region_key_of(
        world,
        dimension,
        x,
        z,
    )[i] by {
        if i < 7 {
            assert(key[i] == key.subrange(0, 7)[i]);
        } else if b <= i < b + 3 {
            assert(key[i] == key.subrange(b, b + 3)[i - b]);
        } else if e <= i {
            assert(key[i] == key.subrange(e, e + 4)[i - e]);
        }
    }
    assert(key =~= region_key_of(world, dimension, x, z));
}

/// A key is a region key in one way at most.
proof fn lemma_split_unique(
    key: Seq<char>,
    a: int,
    b: int,
    c: int,
    e: int,
    a2: int,
    b2: int,
    c2: int,
    e2: int,
)
    requires
        splits_at(key, a, b, c, e),
        splits_at(key, a2, b2, c2, e2),
    ensures
        a == a2,
        b == b2,
        c == c2,
        e == e2,
{
    assert(a == a2) by {
        if a < a2 {
            assert(is_name_char(key[a]));
        }
        if a2 < a {
            assert(is_name_char(key[a2]));
        }
    }
    assert(b == b2) by {
        if b < b2 {
            assert(is_name_char(key[b]));
            assert(key[b] == key.subrange(b, b + 3)[0]);
        }
        if b2 < b {
            assert(is_name_char(key[b2]));
            assert(key[b2] == key.subrange(b2, b2 + 3)[0]);
        }
    }
    assert(c == c2) by {
        if c < c2 {
            assert(is_coordinate_char(key[c]));
        }
        if c2 < c {
            assert(is_coordinate_char(key[c2]));
        }
    }
}

/// The character at position `i` of a key made of ASCII characters.
fn char_at(key: &str, i: usize) -> (c: char)
    requires
        key.is_ascii(),
        i < key@.len(),
    ensures
        c == key@[i as int],
{
    let b: u8 = key.get_ascii(i);
    b as char
}

/// Whether `c` is a decimal digit.
fn digit(c: char) -> (r: bool)
    ensures
        r == is_digit(c),
{
    '0' <= c && c <= '9'
}

/// Whether `c` may stand in a name.
fn name_char(c: char) -> (r: bool)
    ensures
        r == is_name_char(c),
{
    c == '-' || c == '_' || digit(c) || ('A' <= c && c <= 'Z') || ('a' <= c && c <= 'z')
}

/// Whether `c` may stand in the text of a coordinate.
fn coordinate_char(c: char) -> (r: bool)
    ensures
        r == is_coordinate_char(c),
{
    c == '-' || digit(c)
}

/// The end of the run of name characters that starts at `from`.
fn name_end(key: &str, from: usize) -> (end: usize)
    requires
        key.is_ascii(),
        from <= key@.len(),
    ensures
        from <= end <= key@.len(),
        forall|i: int| from <= i < end ==> is_name_char(#[trigger] key@[i]),
        end < key@.len() ==> !is_name_char(key@[end as int]),
{
    let n: usize = key.unicode_len();
    let mut end: usize = from;
    while end < n && name_char(char_at(key, end))
        invariant
            key.is_ascii(),
            n == key@.len(),
            from <= end <= n,
            forall|i: int| from <= i < end ==> is_name_char(#[trigger] key@[i]),
        decreases n - end,
    {
        end += 1;
    }
    end
}

/// The end of the run of coordinate characters that starts at `from`.
fn coordinate_end(key: &str, from: usize) -> (end: usize)
    requires
        key.is_ascii(),
        from <= key@.len(),
    ensures
        from <= end <= key@.len(),
        forall|i: int| from <= i < end ==> is_coordinate_char(#[trigger] key@[i]),
        end < key@.len() ==> !is_coordinate_char(key@[end as int]),
{
    let n: usize = key.unicode_len();
    let mut end: usize = from;
    while end < n && coordinate_char(char_at(key, end))
        invariant
            key.is_ascii(),
            n == key@.len(),
            from <= end <= n,
            forall|i: int| from <= i < end ==> is_coordinate_char(#[trigger] key@[i]),
        decreases n - end,
    {
        end += 1;
    }
    end
}

/// The coordinate that a text denotes: its value, where that is a number an
/// `i64` can hold.
pub open spec fn coordinate_of(s: Seq<char>) -> Option<i64> {
    match coordinate_value(s) {
        Some(v) => if i64::MIN <= v <= i64::MAX {
            Some(v as i64)
        } else {
            None
        },
        None => None,
    }
}

/// The digits read so far denote no more than all the digits do.
proof fn lemma_digits_grow(s: Seq<char>, k: int)
    requires
        0 <= k <= s.len(),
        forall|i: int| 0 <= i < s.len() ==> is_digit(#[trigger] s[i]),
    ensures
        0 <= digits_value(s.subrange(0, k)) <= digits_value(s),
    decreases s.len() - k,
{
    lemma_digits_step(s, k);
    if k < s.len() {
        lemma_digits_grow(s, k + 1);
        lemma_digits_step(s, k + 1);
    } else {
        assert(s.subrange(0, k) =~= s);
    }
}

/// What one more digit adds to the number read so far.
proof fn lemma_digits_step(s: Seq<char>, k: int)
    requires
        0 <= k <= s.len(),
        forall|i: int| 0 <= i < s.len() ==> is_digit(#[trigger] s[i]),
    ensures
        0 <= digits_value(s.subrange(0, k)),
        k > 0 ==> digits_value(s.subrange(0, k)) == digits_value(s.subrange(0, k - 1)) * 10 + (s[k
            - 1] as int - '0' as int),
    decreases k,
{
    if k > 0 {
        lemma_digits_step(s, k - 1);
        assert(s.subrange(0, k).drop_last() =~= s.subrange(0, k - 1));
        assert(is_digit(s[k - 1]));
    }
}

/// Reads the coordinate that the characters from `from` up to `to` denote.
fn parse_coordinate(key: &str, from: usize, to: usize) -> (v: Option<i64>)
    requires
        key.is_ascii(),
        from < to <= key@.len(),
    ensures
        v == coordinate_of(key@.subrange(from as int, to as int)),
{
    let ghost text = key@.subrange(from as int, to as int);
    let negative: bool = char_at(key, from) == '-';
    let start: usize = if negative {
        from + 1
    } else {
        from
    };
    let ghost digits = key@.subrange(start as int, to as int);
    proof {
        assert(text[0] == key@[from as int]);
        if negative {
            assert(!is_digit(text[0]));
            assert(digits =~= text.subrange(1, text.len() as int));
        } else {
            assert(digits =~= text);
        }
    }
    if start == to {
        return None;
    }
    let mut acc: i64 = 0;
    let mut i: usize = start;
    while i < to
        invariant
            key.is_ascii(),
            start <= i <= to <= key@.len(),
            digits == key@.subrange(start as int, to as int),
            text == key@.subrange(from as int, to as int),
            text.len() > 0,
            negative ==> text[0] == '-' && digits == text.subrange(1, text.len() as int),
            !negative ==> text[0] != '-' && digits == text,
            forall|j: int| 0 <= j < i - start ==> is_digit(#[trigger] digits[j]),
            !negative ==> acc == digits_value(digits.subrange(0, i - start)),
            negative ==> acc == -digits_value(digits.subrange(0, i - start)),
            0 <= digits_value(digits.subrange(0, i - start)),
        decreases to - i,
    {
        let c: char = char_at(key, i);
        assert(c == digits[i - start]);
        if !digit(c) {
            assert(!is_digits(digits));
            return None;
        }
        let d: i64 = (c as u8 - '0' as u8) as i64;
        let next: Option<i64> = match acc.checked_mul(10) {
            Some(m) => if negative {
                m.checked_sub(d)
            } else {
                m.checked_add(d)
            },
            None => None,
        };
        proof {
            assert(digits.subrange(0, i + 1 - start).drop_last() =~= digits.subrange(
                0,
                i - start,
            ));
            if next is None && coordinate_value(text) is Some {
                lemma_digits_grow(digits, i + 1 - start);
            }
        }
        match next {
            Some(value) => {
                acc = value;
            },
            None => {
                return None;
            },
        }
        i += 1;
    }
    proof {
        assert(digits.subrange(0, to - start) =~= digits);
        assert(!is_digit('-'));
    }
    Some(acc)
}

/// A key that splits as a region key holds ASCII characters only.
proof fn lemma_split_is_ascii(key: Seq<char>, a: int, b: int, c: int, e: int)
    requires
        splits_at(key, a, b, c, e),
    ensures
        vstd::utf8::is_ascii_chars(key),
{
    assert forall|i: int| 0 <= i < key.len() implies '\0' <= #[trigger] key[i] <= '\u{7f}' by {
        if i < 7 {
            assert(key[i] == key.subrange(0, 7)[i]);
        } else if i < a {
            assert(is_name_char(key[i]));
        } else if i == a {
        } else if i < b {
            assert(is_name_char(key[i]));
        } else if i < b + 3 {
            assert(key[i] == key.subrange(b, b + 3)[i - b]);
        } else if i < c {
            assert(is_coordinate_char(key[i]));
        } else if i == c {
        } else if i < e {
            assert(is_coordinate_char(key[i]));
        } else {
            assert(key[i] == key.subrange(e, e + 4)[i - e]);
        }
    }
}

/// Whether the characters of `key` from `at` on begin with those of
/// `word`.
fn has_at(key: &str, at: usize, word: &str) -> (r: bool)
    requires
        key.is_ascii(),
        word.is_ascii(),
        at <= key@.len(),
    ensures
        r == (at + word@.len() <= key@.len() && key@.subrange(
            at as int,
            at + word@.len(),
        ) == word@),
{
    let n: usize = key.unicode_len();
    let m: usize = word.unicode_len();
    if n - at < m {
        return false;
    }
    let mut i: usize = 0;
    while i < m
        invariant
            key.is_ascii(),
            word.is_ascii(),
            n == key@.len(),
            m == word@.len(),
            at + m <= n,
            i <= m,
            forall|j: int| 0 <= j < i ==> key@[at + j] == word@[j],
        decreases m - i,
    {
        if char_at(key, at + i) != char_at(word, i) {
            assert(key@.subrange(at as int, at + m)[i as int] != word@[i as int]);
            return false;
        }
        i += 1;
    }
    assert(key@.subrange(at as int, at + m) =~= word@);
    true
}

/// Finds the positions at which `key` splits as a region key, if it does.
fn find_split(key: &str) -> (found: Option<(usize, usize, usize, usize)>)
    ensures
        match found {
            Some((a, b, c, e)) => splits_at(key@, a as int, b as int, c as int, e as int)
                && key.is_ascii(),
            None => forall|a: int, b: int, c: int, e: int| !splits_at(key@, a, b, c, e),
        },
{
    if !key.is_ascii() {
        assert forall|a: int, b: int, c: int, e: int| !splits_at(key@, a, b, c, e) by {
            if splits_at(key@, a, b, c, e) {
                lemma_split_is_ascii(key@, a, b, c, e);
            }
        }
        return None;
    }
    proof {
        reveal_strlit("worlds/");
        reveal_strlit("/r.");
        reveal_strlit(".mca");
        assert("worlds/"@ =~= seq!['w', 'o', 'r', 'l', 'd', 's', '/']);
        assert("/r."@ =~= seq!['/', 'r', '.']);
        assert(".mca"@ =~= seq!['.', 'm', 'c', 'a']);
    }
    let n: usize = key.unicode_len();
    if !has_at(key, 0, "worlds/") {
        return None;
    }
    let a: usize = name_end(key, 7);
    assert forall|a2: int, b2: int, c2: int, e2: int| splits_at(key@, a2, b2, c2, e2) implies a2
        == a by {
        if a2 < a {
            assert(is_name_char(key@[a2]));
        }
        if a < a2 {
            assert(is_name_char(key@[a as int]));
        }
    }
    if a == 7 || a >= n || char_at(key, a) != '/' {
        return None;
    }
    let b: usize = name_end(key, a + 1);
    assert forall|a2: int, b2: int, c2: int, e2: int| splits_at(key@, a2, b2, c2, e2) implies b2
        == b by {
        assert(key@[b2] == key@.subrange(b2, b2 + 3)[0]);
        if b2 < b {
            assert(is_name_char(key@[b2]));
        }
        if b < b2 {
            assert(is_name_char(key@[b as int]));
        }
    }
    if b == a + 1 || !has_at(key, b, "/r.") {
        return None;
    }
    let c: usize = coordinate_end(key, b + 3);
    assert forall|a2: int, b2: int, c2: int, e2: int| splits_at(key@, a2, b2, c2, e2) implies c2
        == c by {
        if c2 < c {
            assert(is_coordinate_char(key@[c2]));
        }
        if c < c2 {
            assert(is_coordinate_char(key@[c as int]));
        }
    }
    if c == b + 3 || c >= n || char_at(key, c) != '.' {
        return None;
    }
    let e: usize = coordinate_end(key, c + 1);
    assert forall|a2: int, b2: int, c2: int, e2: int| splits_at(key@, a2, b2, c2, e2) implies e2
        == e by {
        assert(key@[e2] == key@.subrange(e2, e2 + 4)[0]);
        if e2 < e {
            assert(is_coordinate_char(key@[e2]));
        }
        if e < e2 {
            assert(is_coordinate_char(key@[e as int]));
        }
    }
    if e == c + 1 || !has_at(key, e, ".mca") || n - e != 4 {
        return None;
    }
    Some((a, b, c, e))
}

/// What the key of a region file says of the region.
#[derive(Clone, Copy, Debug)]
pub struct TileDetails<'a> {
    pub world: &'a str,
    pub dimension: &'a str,
    pub x: i64,
    pub z: i64,
}

/// Why a key names no region.
#[derive(Clone, Copy, Debug, PartialEq, Eq, Structural)]
pub enum KeyError {
    /// The key does not have the form of a region key.
    NotARegionKey,
    /// The key has the form of a region key, and the text of one of its
    /// coordinates denotes no integer that an `i64` can hold.
    BadCoordinate,
}

/// A key has the form of a region key in one way at most.
pub proof fn law_region_key_unique(
    key: Seq<char>,
    world: Seq<char>,
    dimension: Seq<char>,
    x: Seq<char>,
    z: Seq<char>,
    world2: Seq<char>,
    dimension2: Seq<char>,
    x2: Seq<char>,
    z2: Seq<char>,
)
    requires
        is_region_key(key, world, dimension, x, z),
        is_region_key(key, world2, dimension2, x2, z2),
    ensures
        world == world2,
        dimension == dimension2,
        x == x2,
        z == z2,
{
    lemma_key_positions(key, world, dimension, x, z);
    lemma_key_positions(key, world2, dimension2, x2, z2);
    let (a, b, c, e) = part_ends(world, dimension, x, z);
    let (a2, b2, c2, e2) = part_ends(world2, dimension2, x2, z2);
    lemma_split_unique(key, a, b, c, e, a2, b2, c2, e2);
}

/// The four parts of a key that has the form of a region key: the names of
/// world and dimension and the texts of the two coordinates. `None` for any
/// other key.
pub open spec fn region_key_parts(key: Seq<char>) -> Option<
    (Seq<char>, Seq<char>, Seq<char>, Seq<char>),
> {
    if exists|world: Seq<char>, dimension: Seq<char>, x: Seq<char>, z: Seq<char>|
        is_region_key(key, world, dimension, x, z) {
        Some(
            choose|world: Seq<char>, dimension: Seq<char>, x: Seq<char>, z: Seq<char>|
                is_region_key(key, world, dimension, x, z),
        )
    } else {
        None
    }
}

/// The parts of a region key are the parts it was made of.
pub proof fn law_region_key_parts(
    key: Seq<char>,
    world: Seq<char>,
    dimension: Seq<char>,
    x: Seq<char>,
    z: Seq<char>,
)
    requires
        is_region_key(key, world, dimension, x, z),
    ensures
        region_key_parts(key) == Some((world, dimension, x, z)),
{
    let (world2, dimension2, x2, z2) = choose|
        world: Seq<char>,
        dimension: Seq<char>,
        x: Seq<char>,
        z: Seq<char>,
    | is_region_key(key, world, dimension, x, z);
    law_region_key_unique(key, world, dimension, x, z, world2, dimension2, x2, z2);
}

/// What reading a key yields: the tile that the key names, or the reason
/// why it names none.
pub open spec fn reading_of(key: Seq<char>) -> Result<
    (Seq<char>, Seq<char>, i64, i64),
    KeyError,
> {
    match region_key_parts(key) {
        Some((world, dimension, x, z)) => match (coordinate_of(x), coordinate_of(z)) {
            (Some(x), Some(z)) => Ok((world, dimension, x, z)),
            _ => Err(KeyError::BadCoordinate),
        },
        None => Err(KeyError::NotARegionKey),
    }
}

impl<'a> TileDetails<'a> {
    /// The names and coordinates of these details.
    pub open spec fn parts(self) -> (Seq<char>, Seq<char>, i64, i64) {
        (self.world@, self.dimension@, self.x, self.z)
    }

    /// Reads a region key. The key must have the form
    /// `worlds/<world>/<dimension>/r.<x>.<z>.mca`, and the texts of both
    /// coordinates must denote integers that an `i64` can hold.
    pub fn parse(key: &'a str) -> (result: Result<TileDetails<'a>, KeyError>)
        ensures
            match reading_of(key@) {
                Ok(parts) => result matches Ok(details) && details.parts() == parts,
                Err(e) => result matches Err(r) && r == e,
            },
    {
        match find_split(key) {
            None => {
                assert forall|
                    world: Seq<char>,
                    dimension: Seq<char>,
                    x: Seq<char>,
                    z: Seq<char>,
                | !is_region_key(key@, world, dimension, x, z) by {
                    if is_region_key(key@, world, dimension, x, z) {
                        lemma_key_positions(key@, world, dimension, x, z);
                    }
                }
                Err(KeyError::NotARegionKey)
            },
            Some((a, b, c, e)) => {
                proof {
                    lemma_split_key(key@, a as int, b as int, c as int, e as int);
                    law_region_key_parts(
                        key@,
                        key@.subrange(7, a as int),
                        key@.subrange(a + 1, b as int),
                        key@.subrange(b + 3, c as int),
                        key@.subrange(c + 1, e as int),
                    );
                }
                let x: Option<i64> = parse_coordinate(key, b + 3, c);
                let z: Option<i64> = parse_coordinate(key, c + 1, e);
                match (x, z) {
                    (Some(x), Some(z)) => Ok(
                        TileDetails {
                            world: key.substring_ascii(7, a),
                            dimension: key.substring_ascii(a + 1, b),
                            x,
                            z,
                        },
                    ),
                    _ => Err(KeyError::BadCoordinate),
                }
            },
        }
    }
}

/// The character of a decimal digit.
pub open spec fn digit_char(d: int) -> char {
    if d == 0 {
        '0'
    } else if d == 1 {
        '1'
    } else if d == 2 {
        '2'
    } else if d == 3 {
        '3'
    } else if d == 4 {
        '4'
    } else if d == 5 {
        '5'
    } else if d == 6 {
        '6'
    } else if d == 7 {
        '7'
    } else if d == 8 {
        '8'
    } else {
        '9'
    }
}

/// The decimal digits of a natural number, without leading zeros.
pub open spec fn digits_of(n: nat) -> Seq<char>
    decreases n,
{
    if n < 10 {
        seq![digit_char(n as int)]
    } else {
        digits_of(n / 10).push(digit_char((n % 10) as int))
    }
}

/// The decimal text of an integer: its digits, after `-` where it is
/// negative.
pub open spec fn decimal_text(v: int) -> Seq<char> {
    if v < 0 {
        seq!['-'] + digits_of((-v) as nat)
    } else {
        digits_of(v as nat)
    }
}

/// The key of a tile's image, `anvil-tiles/<world>/<dimension>/r.<x>.<z>.png`.
pub open spec fn tile_key_of(world: Seq<char>, dimension: Seq<char>, x: int, z: int) -> Seq<char> {
    seq!['a', 'n', 'v', 'i', 'l', '-', 't', 'i', 'l', 'e', 's', '/'] + world + seq!['/']
        + dimension + seq!['/', 'r', '.'] + decimal_text(x) + seq!['.'] + decimal_text(z)
        + seq!['.', 'p', 'n', 'g']
}

/// The digits of a number denote the number.
proof fn lemma_digits_round_trip(n: nat)
    ensures
        is_digits(digits_of(n)),
        digits_value(digits_of(n)) == n,
    decreases n,
{
    if n < 10 {
        assert(digits_of(n).drop_last() =~= Seq::<char>::empty());
        assert(digits_value(digits_of(n).drop_last()) == 0);
    } else {
        lemma_digits_round_trip(n / 10);
        assert(digits_of(n).drop_last() =~= digits_of(n / 10));
    }
}

/// The decimal text of an integer denotes the integer, and can stand in a
/// key.
pub proof fn law_decimal_round_trip(v: int)
    ensures
        coordinate_value(decimal_text(v)) == Some(v),
        is_coordinate_text(decimal_text(v)),
{
    if v < 0 {
        lemma_digits_round_trip((-v) as nat);
        let text = decimal_text(v);
        assert(text.subrange(1, text.len() as int) =~= digits_of((-v) as nat));
        assert(!is_digit(text[0]));
        assert forall|i: int| 0 <= i < text.len() implies is_coordinate_char(#[trigger] text[i]) by {
            if i > 0 {
                assert(text[i] == digits_of((-v) as nat)[i - 1]);
            }
        }
    } else {
        lemma_digits_round_trip(v as nat);
    }
}

/// A key made of two names and the decimal texts of two coordinates reads
/// as those names and coordinates.
pub proof fn law_key_round_trip(world: Seq<char>, dimension: Seq<char>, x: i64, z: i64)
    requires
        is_name(world),
        is_name(dimension),
    ensures
        reading_of(region_key_of(world, dimension, decimal_text(x as int), decimal_text(z as int)))
            == Ok::<(Seq<char>, Seq<char>, i64, i64), KeyError>((world, dimension, x, z)),
{
    law_decimal_round_trip(x as int);
    law_decimal_round_trip(z as int);
    let key = region_key_of(world, dimension, decimal_text(x as int), decimal_text(z as int));
    assert(is_region_key(key, world, dimension, decimal_text(x as int), decimal_text(z as int)))
        by {
        reveal(is_region_key);
    }
    law_region_key_parts(key, world, dimension, decimal_text(x as int), decimal_text(z as int));
}

/// The text of one decimal digit.
fn digit_str(d: u8) -> (text: &'static str)
    requires
        d < 10,
    ensures
        text@ == seq![digit_char(d as int)],
{
    proof {
        reveal_strlit("0");
        reveal_strlit("1");
        reveal_strlit("2");
        reveal_strlit("3");
        reveal_strlit("4");
        reveal_strlit("5");
        reveal_strlit("6");
        reveal_strlit("7");
        reveal_strlit("8");
        reveal_strlit("9");
    }
    let text: &'static str = if d == 0 {
        "0"
    } else if d == 1 {
        "1"
    } else if d == 2 {
        "2"
    } else if d == 3 {
        "3"
    } else if d == 4 {
        "4"
    } else if d == 5 {
        "5"
    } else if d == 6 {
        "6"
    } else if d == 7 {
        "7"
    } else if d == 8 {
        "8"
    } else {
        "9"
    };
    assert(text@ =~= seq![digit_char(d as int)]);
    text
}

/// Appends the decimal digits of `n`.
fn push_digits(out: &mut String, n: u64)
    ensures
        final(out)@ == old(out)@ + digits_of(n as nat),
    decreases n,
{
    if n >= 10 {
        push_digits(out, n / 10);
    }
    out.append(digit_str((n % 10) as u8));
    assert(out@ =~= old(out)@ + digits_of(n as nat));
}

/// Appends the decimal text of `v`.
fn push_decimal(out: &mut String, v: i64)
    ensures
        final(out)@ == old(out)@ + decimal_text(v as int),
{
    if v < 0 {
        proof {
            reveal_strlit("-");
        }
        out.append("-");
        let magnitude: u64 = (-(v + 1)) as u64 + 1;
        push_digits(out, magnitude);
        assert(out@ =~= old(out)@ + decimal_text(v as int));
    } else {
        push_digits(out, v as u64);
    }
}

impl<'a> TileDetails<'a> {
    /// The key under which the image of this tile is stored.
    pub fn tile_key(&self) -> (key: String)
        ensures
            key@ == tile_key_of(self.world@, self.dimension@, self.x as int, self.z as int),
    {
        proof {
            reveal_strlit("anvil-tiles/");
            reveal_strlit("/");
            reveal_strlit("/r.");
            reveal_strlit(".");
            reveal_strlit(".png");
        }
        let mut key = String::from_str("anvil-tiles/");
        key.append(self.world);
        key.append("/");
        key.append(self.dimension);
        key.append("/r.");
        push_decimal(&mut key, self.x);
        key.append(".");
        push_decimal(&mut key, self.z);
        key.append(".png");
        assert(key@ =~= tile_key_of(self.world@, self.dimension@, self.x as int, self.z as int));
        key
    }

    /// The key of the region file north of this one: the same world and
    /// dimension, the same `x`, and `z - 1`. `None` where `z - 1` is no
    /// number that an `i64` can hold.
    pub fn north_region_key(&self) -> (key: Option<String>)
        ensures
            match key {
                Some(key) => self.z > i64::MIN && key@ == region_key_of(
                    self.world@,
                    self.dimension@,
                    decimal_text(self.x as int),
                    decimal_text(self.z - 1),
                ),
                None => self.z == i64::MIN,
            },
    {
        if self.z == i64::MIN {
            return None;
        }
        proof {
            reveal_strlit("worlds/");
            reveal_strlit("/");
            reveal_strlit("/r.");
            reveal_strlit(".");
            reveal_strlit(".mca");
        }
        let mut key = String::from_str("worlds/");
        key.append(self.world);
        key.append("/");
        key.append(self.dimension);
        key.append("/r.");
        push_decimal(&mut key, self.x);
        key.append(".");
        push_decimal(&mut key, self.z - 1);
        key.append(".mca");
        assert(key@ =~= region_key_of(
            self.world@,
            self.dimension@,
            decimal_text(self.x as int),
            decimal_text(self.z - 1),
        ));
        Some(key)
    }
}

} // verus!
