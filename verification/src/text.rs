//! Text as sequences of characters: splitting, trimming, and the conversions of strings.

use vstd::prelude::*;
use vstd::utf8::*;

verus! {

/// Whether a character is white space, as Unicode has it.
pub open spec fn is_space(c: char) -> bool {
    let x = c as u32;
    ||| 0x9 <= x <= 0xd
    ||| x == 0x20
    ||| x == 0x85
    ||| x == 0xa0
    ||| x == 0x1680
    ||| 0x2000 <= x <= 0x200a
    ||| x == 0x2028
    ||| x == 0x2029
    ||| x == 0x202f
    ||| x == 0x205f
    ||| x == 0x3000
}

/// Tests for white space.
pub fn is_whitespace(c: char) -> (r: bool)
    ensures
        r == is_space(c),
{
    let x: u32 = c as u32;
    (0x9 <= x && x <= 0xd) || x == 0x20 || x == 0x85 || x == 0xa0 || x == 0x1680 || (0x2000 <= x
        && x <= 0x200a) || x == 0x2028 || x == 0x2029 || x == 0x202f || x == 0x205f || x == 0x3000
}

/// What a text is split at.
#[derive(Clone, Copy)]
pub enum Separator {
    /// One given character.
    Char(char),
    /// Any white space.
    Space,
}

impl Separator {
    /// Whether the text is split at this character.
    pub open spec fn splits(self, c: char) -> bool {
        match self {
            Separator::Char(x) => c == x,
            Separator::Space => is_space(c),
        }
    }

    fn splits_at(&self, c: char) -> (r: bool)
        ensures
            r == self.splits(c),
    {
        match self {
            Separator::Char(x) => c == *x,
            Separator::Space => is_whitespace(c),
        }
    }
}

/// The pieces of a text between separators. There is one more piece than there are separators;
/// pieces may be empty.
pub open spec fn pieces(s: Seq<char>, sep: Separator) -> Seq<Seq<char>>
    decreases s.len(),
{
    if s.len() == 0 {
        seq![Seq::empty()]
    } else {
        let before = pieces(s.drop_last(), sep);
        if sep.splits(s.last()) {
            before.push(Seq::empty())
        } else {
            before.drop_last().push(before.last().push(s.last()))
        }
    }
}

/// A text without the white space at its ends.
pub open spec fn trimmed(s: Seq<char>) -> Seq<char>
    decreases s.len(),
{
    if s.len() == 0 {
        s
    } else if is_space(s.first()) {
        trimmed(s.drop_first())
    } else if is_space(s.last()) {
        trimmed(s.drop_last())
    } else {
        s
    }
}

/// The characters of a string.
pub fn to_chars(s: &str) -> (r: Vec<char>)
    ensures
        r@ == s@,
{
    let mut r: Vec<char> = Vec::new();
    for c in it: s.chars()
        invariant
            it.seq() == s@,
            r@ == s@.take(it.index() as int),
    {
        r.push(c);
        assert(r@ =~= s@.take(it.index() + 1));
    }
    assert(s@.take(s@.len() as int) =~= s@);
    r
}

/// Where the pieces of a stretch of text begin and end.
pub fn split(s: &Vec<char>, lo: usize, hi: usize, sep: Separator) -> (r: Vec<(usize, usize)>)
    requires
        lo <= hi <= s@.len(),
    ensures
        r@.len() == pieces(s@.subrange(lo as int, hi as int), sep).len(),
        forall|k: int|
            0 <= k < r@.len() ==> {
                let (a, b) = #[trigger] r@[k];
                lo <= a <= b <= hi && s@.subrange(a as int, b as int) == pieces(
                    s@.subrange(lo as int, hi as int),
                    sep,
                )[k]
            },
{
    let mut r: Vec<(usize, usize)> = Vec::new();
    let mut start: usize = lo;
    let mut i: usize = lo;
    assert(s@.subrange(lo as int, lo as int) =~= Seq::empty());
    while i < hi
        invariant
            lo <= start <= i <= hi <= s@.len(),
            ({
                let p = pieces(s@.subrange(lo as int, i as int), sep);
                &&& p.len() == r@.len() + 1
                &&& p.last() == s@.subrange(start as int, i as int)
                &&& forall|k: int|
                    0 <= k < r@.len() ==> {
                        let (a, b) = #[trigger] r@[k];
                        lo <= a <= b <= hi && s@.subrange(a as int, b as int) == p[k]
                    }
            }),
        decreases hi - i,
    {
        let ghost t = s@.subrange(lo as int, i + 1);
        assert(t.drop_last() =~= s@.subrange(lo as int, i as int));
        assert(t.last() == s@[i as int]);
        if sep.splits_at(s[i]) {
            r.push((start, i));
            start = i + 1;
            assert(s@.subrange(i + 1, i + 1) =~= Seq::empty());
        } else {
            assert(s@.subrange(start as int, i + 1) =~= s@.subrange(start as int, i as int).push(
                s@[i as int],
            ));
        }
        i = i + 1;
    }
    r.push((start, hi));
    r
}

/// Where a stretch of text begins and ends without the white space at its ends.
pub fn trim(s: &Vec<char>, lo: usize, hi: usize) -> (r: (usize, usize))
    requires
        lo <= hi <= s@.len(),
    ensures
        lo <= r.0 <= r.1 <= hi,
        s@.subrange(r.0 as int, r.1 as int) == trimmed(s@.subrange(lo as int, hi as int)),
{
    let mut a: usize = lo;
    while a < hi && is_whitespace(s[a])
        invariant
            lo <= a <= hi <= s@.len(),
            trimmed(s@.subrange(lo as int, hi as int)) == trimmed(
                s@.subrange(a as int, hi as int),
            ),
        decreases hi - a,
    {
        assert(s@.subrange(a as int, hi as int).drop_first() =~= s@.subrange(a + 1, hi as int));
        a = a + 1;
    }
    let mut b: usize = hi;
    while a < b && is_whitespace(s[b - 1])
        invariant
            lo <= a <= b <= hi <= s@.len(),
            a < b ==> !is_space(s@[a as int]),
            trimmed(s@.subrange(lo as int, hi as int)) == trimmed(s@.subrange(a as int, b as int)),
        decreases b - a,
    {
        assert(s@.subrange(a as int, b as int).drop_last() =~= s@.subrange(a as int, b - 1));
        b = b - 1;
    }
    (a, b)
}

/// The lowercase form of a text.
pub uninterp spec fn lowercase_of(s: Seq<char>) -> Seq<char>;

/// A text with `A` to `Z` made `a` to `z`.
pub open spec fn ascii_lower(s: Seq<char>) -> Seq<char> {
    Seq::new(
        s.len(),
        |i: int|
            if 'A' <= s[i] && s[i] <= 'Z' {
                (s[i] as u32 + 32) as char
            } else {
                s[i]
            },
    )
}

/// `str::to_lowercase`: the result depends on the text alone, and in a text of ASCII characters
/// it makes `A` to `Z` lowercase and leaves the rest.
#[verifier::external_body]
pub(crate) fn lowercase(s: &str) -> (r: String)
    ensures
        r@ == lowercase_of(s@),
        is_ascii_chars(s@) ==> r@ == ascii_lower(s@),
{
    s.to_lowercase()
}

/// `String::from_utf8`: the string that the bytes encode, if they are valid UTF-8.
#[verifier::external_body]
pub(crate) fn string_from(bytes: Vec<u8>) -> (r: Option<String>)
    ensures
        r is Some <==> valid_utf8(bytes@),
        r matches Some(s) ==> encode_utf8(s@) == bytes@,
{
    String::from_utf8(bytes).ok()
}

/// ASCII bytes as characters.
pub open spec fn as_chars(bytes: Seq<u8>) -> Seq<char> {
    Seq::new(bytes.len(), |i: int| bytes[i] as char)
}

/// ASCII bytes are valid UTF-8, and encode the characters of the same numbers.
pub proof fn lemma_ascii(bytes: Seq<u8>)
    requires
        forall|i: int| 0 <= i < bytes.len() ==> #[trigger] bytes[i] < 128,
    ensures
        valid_utf8(bytes),
        encode_utf8(as_chars(bytes)) == bytes,
        forall|s: Seq<char>| #[trigger] encode_utf8(s) == bytes ==> s == as_chars(bytes),
{
    let c = as_chars(bytes);
    assert(is_ascii_chars(c));
    vstd::utf8::is_ascii_chars_encode_utf8(c);
    assert(encode_utf8(c) =~= bytes);
    vstd::utf8::encode_utf8_valid_utf8(c);
    vstd::utf8::encode_utf8_decode_utf8(c);
    assert forall|s: Seq<char>| #[trigger] encode_utf8(s) == bytes implies s == c by {
        vstd::utf8::encode_utf8_decode_utf8(s);
    }
}

/// A text without separators is one piece.
pub proof fn law_pieces_plain(s: Seq<char>, sep: Separator)
    requires
        forall|i: int| 0 <= i < s.len() ==> !sep.splits(#[trigger] s[i]),
    ensures
        pieces(s, sep) == seq![s],
    decreases s.len(),
{
    if s.len() == 0 {
        assert(s =~= Seq::empty());
    } else {
        let t = s.drop_last();
        assert forall|i: int| 0 <= i < t.len() implies !sep.splits(#[trigger] t[i]) by {
            assert(t[i] == s[i]);
        }
        law_pieces_plain(t, sep);
        assert(s[s.len() - 1] == s.last());
        assert(t.push(s.last()) =~= s);
        assert(seq![t].drop_last() =~= Seq::empty());
        assert(pieces(s, sep) =~= seq![s]);
    }
}

/// At a separator a text falls into the pieces before it and the pieces after it.
pub proof fn law_pieces_join(a: Seq<char>, c: char, b: Seq<char>, sep: Separator)
    requires
        sep.splits(c),
    ensures
        pieces(a.push(c) + b, sep) == pieces(a, sep) + pieces(b, sep),
    decreases b.len(),
{
    let s = a.push(c) + b;
    lemma_pieces_some(b, sep);
    if b.len() == 0 {
        assert(s =~= a.push(c));
        assert(s.drop_last() =~= a);
        assert(pieces(s, sep) =~= pieces(a, sep) + pieces(b, sep));
    } else {
        let t = b.drop_last();
        law_pieces_join(a, c, t, sep);
        lemma_pieces_some(t, sep);
        assert(s.drop_last() =~= a.push(c) + t);
        assert(s.last() == b.last());
        let before = pieces(a, sep) + pieces(t, sep);
        assert(before.drop_last() =~= pieces(a, sep) + pieces(t, sep).drop_last());
        assert(before.last() == pieces(t, sep).last());
        assert(pieces(s, sep) =~= pieces(a, sep) + pieces(b, sep));
    }
}

/// There is always a piece.
proof fn lemma_pieces_some(s: Seq<char>, sep: Separator)
    ensures
        pieces(s, sep).len() >= 1,
    decreases s.len(),
{
    if s.len() > 0 {
        lemma_pieces_some(s.drop_last(), sep);
    }
}

/// What the separators are: one given character, or any white space.
pub proof fn law_separators(x: char, c: char)
    ensures
        Separator::Char(x).splits(c) <==> c == x,
        Separator::Space.splits(c) <==> is_space(c),
{
}

/// Trimming takes off white space only, and all of it: a text is its trimmed text with white space
/// before and after it, and the trimmed text neither begins nor ends with white space.
pub proof fn law_trimmed(s: Seq<char>) -> (r: (Seq<char>, Seq<char>))
    ensures
        s == r.0 + trimmed(s) + r.1,
        forall|i: int| 0 <= i < r.0.len() ==> is_space(#[trigger] r.0[i]),
        forall|i: int| 0 <= i < r.1.len() ==> is_space(#[trigger] r.1[i]),
        trimmed(s).len() > 0 ==> !is_space(trimmed(s).first()) && !is_space(trimmed(s).last()),
    decreases s.len(),
{
    if s.len() == 0 {
        assert(s =~= Seq::<char>::empty() + s + Seq::<char>::empty());
        (Seq::empty(), Seq::empty())
    } else if is_space(s.first()) {
        let (a, b) = law_trimmed(s.drop_first());
        let x = seq![s.first()] + a;
        assert(s =~= seq![s.first()] + s.drop_first());
        assert(s =~= x + trimmed(s) + b);
        assert forall|i: int| 0 <= i < x.len() implies is_space(#[trigger] x[i]) by {
            if i > 0 {
                assert(x[i] == a[i - 1]);
            }
        }
        (x, b)
    } else if is_space(s.last()) {
        let (a, b) = law_trimmed(s.drop_last());
        let y = b.push(s.last());
        assert(s =~= s.drop_last().push(s.last()));
        assert(s =~= a + trimmed(s) + y);
        (a, y)
    } else {
        assert(s =~= Seq::<char>::empty() + s + Seq::<char>::empty());
        (Seq::empty(), Seq::empty())
    }
}

/// In lowercase, a letter from `A` to `Z` is the letter 32 places on, and any other character
/// stays.
pub proof fn law_ascii_lower(s: Seq<char>, i: int)
    requires
        0 <= i < s.len(),
    ensures
        ascii_lower(s).len() == s.len(),
        65 <= s[i] as int <= 90 ==> ascii_lower(s)[i] as int == s[i] as int + 32,
        !(65 <= s[i] as int <= 90) ==> ascii_lower(s)[i] == s[i],
{
    let c = s[i];
    if 65 <= c as int <= 90 {
        assert('A' <= c && c <= 'Z');
        assert(c as u32 == c as int);
        assert((c as u32 + 32) as char as int == c as int + 32);
    }
}

/// Which characters are white space: these twenty-five, and no others.
pub proof fn law_space(c: char)
    ensures
        is_space(c) <==> seq![
            9int, 10, 11, 12, 13, 32, 133, 160, 5760, 8192, 8193, 8194, 8195, 8196, 8197, 8198,
            8199, 8200, 8201, 8202, 8232, 8233, 8239, 8287, 12288,
        ].contains(c as int),
{
    let x = c as int;
    let all = seq![
        9int, 10, 11, 12, 13, 32, 133, 160, 5760, 8192, 8193, 8194, 8195, 8196, 8197, 8198, 8199,
        8200, 8201, 8202, 8232, 8233, 8239, 8287, 12288,
    ];
    if is_space(c) {
        let i = if x <= 13 {
            x - 9
        } else if x == 32 {
            5
        } else if x == 133 {
            6
        } else if x == 160 {
            7
        } else if x == 5760 {
            8
        } else if x <= 8202 {
            x - 8183
        } else if x == 8232 {
            20
        } else if x == 8233 {
            21
        } else if x == 8239 {
            22
        } else if x == 8287 {
            23
        } else {
            24
        };
        assert(all[i] == x);
    }
}

} // verus!
