//! Parameter texts such as `|NAME=value|OTHER=value`, with a second, UTF-8
//! spelling of the values that Windows-1252 cannot write.

use vstd::prelude::*;
use vstd::utf8::encode_utf8;
use crate::codec::{
    decode_utf8_lossy, decode_windows_1252, encode_windows_1252, encoded, has_bytes, sniffed_text,
    utf8_text,
};
use crate::text::{
    chars_of, cut, find_char, parse_number, parsed_number, same_but_case, same_text_but_case, split,
    split_text, text_of, text_starts_with, trim, trimmed, views,
};

verus! {

/// A name and its value.
pub type Pair = (Seq<char>, Seq<char>);

/// The views of a sequence of name and value pairs.
pub open spec fn pair_views(pairs: Seq<(String, String)>) -> Seq<Pair> {
    pairs.map_values(|pair: (String, String)| (pair.0@, pair.1@))
}

/// Whether `value` needs a second, UTF-8 spelling.
pub fn requires_utf8_parameter(value: &str) -> (r: bool)
    ensures
        r == !has_bytes(value@),
{
    let (_, had_errors) = encode_windows_1252(value);
    had_errors
}

/// The UTF-8 spelling of `value`: its UTF-8 bytes, read as Windows-1252.
pub open spec fn utf8_spelling(value: Seq<char>) -> Seq<char> {
    sniffed_text(encode_utf8(value))
}

pub fn encode_utf8_parameter_value(value: &str) -> (r: String)
    ensures
        r@ == utf8_spelling(value@),
{
    decode_windows_1252(value.as_bytes())
}

/// What a UTF-8 spelling stands for: its Windows-1252 bytes, read as UTF-8.
pub open spec fn utf8_meaning(value: Seq<char>) -> Seq<char> {
    utf8_text(encoded(value))
}

pub fn decode_utf8_parameter_value(value: &str) -> (r: String)
    ensures
        r@ == utf8_meaning(value@),
{
    let (bytes, _) = encode_windows_1252(value);
    decode_utf8_lossy(bytes.as_slice())
}

/// One `|name=value`.
pub open spec fn entry_text(name: Seq<char>, value: Seq<char>) -> Seq<char> {
    seq!['|'] + name + seq!['='] + value
}

/// How a parameter is written: its entry, and where the value needs it, an
/// entry with the UTF-8 spelling.
pub open spec fn param_text(param: Pair) -> Seq<char> {
    if has_bytes(param.1) {
        entry_text(param.0, param.1)
    } else {
        entry_text(param.0, param.1) + entry_text(
            "%UTF8%"@ + param.0,
            utf8_spelling(param.1),
        )
    }
}

/// How a list of parameters is written.
pub open spec fn params_text(params: Seq<Pair>) -> Seq<char>
    decreases params.len(),
{
    if params.len() == 0 {
        Seq::empty()
    } else {
        params_text(params.drop_last()) + param_text(params.last())
    }
}

/// A list of parameters to be written.
#[derive(Debug)]
pub struct SchParams(pub Vec<(String, String)>);

impl Default for SchParams {
    fn default() -> (r: Self)
        ensures
            r.pairs() == Seq::<Pair>::empty(),
    {
        let r = SchParams(Vec::new());
        assert(r.pairs() =~= Seq::<Pair>::empty());
        r
    }
}

impl SchParams {
    pub open spec fn pairs(self) -> Seq<Pair> {
        pair_views(self.0@)
    }

    pub open spec fn text(self) -> Seq<char> {
        params_text(self.pairs())
    }

    pub fn push(&mut self, key: &str, value: &str)
        ensures
            final(self).pairs() == old(self).pairs().push((key@, value@)),
    {
        self.0.push((key.to_owned(), value.to_owned()));
        assert(self.pairs() =~= old(self).pairs().push((key@, value@)));
    }

    pub fn as_string(&self) -> (r: String)
        ensures
            r@ == self.text(),
    {
        let mut text = String::new();
        let mut i: usize = 0;
        assert(self.pairs().take(0) =~= Seq::<Pair>::empty());
        while i < self.0.len()
            invariant
                i <= self.0@.len(),
                text@ == params_text(self.pairs().take(i as int)),
            decreases self.0.len() - i,
        {
            let ghost before = text@;
            let ghost next = self.pairs().take(i + 1);
            assert(next.drop_last() =~= self.pairs().take(i as int));
            let key = self.0[i].0.as_str();
            let value = self.0[i].1.as_str();
            text.push('|');
            text.append(key);
            text.push('=');
            text.append(value);
            assert(text@ =~= before + entry_text(key@, value@));
            if requires_utf8_parameter(value) {
                let spelling = encode_utf8_parameter_value(value);
                text.push('|');
                text.append("%UTF8%");
                text.append(key);
                text.push('=');
                text.append(spelling.as_str());
                assert(text@ =~= before + (entry_text(key@, value@) + entry_text(
                    "%UTF8%"@ + key@,
                    utf8_spelling(value@),
                )));
            }
            assert(next.last() == (key@, value@));
            i += 1;
        }
        assert(self.pairs().take(i as int) =~= self.pairs());
        text
    }
}

/// The pair that one piece of a parameter text stands for: `name=value`, with
/// the UTF-8 spelling resolved where the name is marked. A piece without `=`
/// stands for none.
pub open spec fn piece_pairs(piece: Seq<char>) -> Seq<Pair> {
    match cut(piece, '=') {
        Some((name, value)) => if "%UTF8%"@.is_prefix_of(name) {
            seq![(name.skip("%UTF8%"@.len() as int), utf8_meaning(value))]
        } else {
            seq![(name, value)]
        },
        None => Seq::empty(),
    }
}

/// The pairs of a sequence of pieces.
pub open spec fn pieces_pairs(pieces: Seq<Seq<char>>) -> Seq<Pair>
    decreases pieces.len(),
{
    if pieces.len() == 0 {
        Seq::empty()
    } else {
        pieces_pairs(pieces.drop_last()) + piece_pairs(pieces.last())
    }
}

/// The pairs that a parameter text stands for.
pub open spec fn text_pairs(text: Seq<char>) -> Seq<Pair> {
    pieces_pairs(split(text, '|'))
}

pub fn parse_param_pairs(text: &str) -> (pairs: Vec<(String, String)>)
    ensures
        pair_views(pairs@) == text_pairs(text@),
{
    let pieces = split_text(text, '|');
    let mut pairs: Vec<(String, String)> = Vec::new();
    let mut i: usize = 0;
    assert(views(pieces@).take(0) =~= Seq::<Seq<char>>::empty());
    assert(pair_views(pairs@) =~= Seq::<Pair>::empty());
    while i < pieces.len()
        invariant
            i <= pieces@.len(),
            pair_views(pairs@) == pieces_pairs(views(pieces@).take(i as int)),
        decreases pieces.len() - i,
    {
        proof {
            let next = views(pieces@).take(i + 1);
            assert(next.drop_last() =~= views(pieces@).take(i as int));
            assert(next.last() == pieces@[i as int]@);
            reveal_strlit("%UTF8%");
        }
        let ghost before = pairs@;
        let piece = chars_of(pieces[i].as_str());
        let eq: usize = find_char(piece.as_slice(), '=');
        if eq < piece.len() {
            let name = text_of(piece.as_slice(), 0, eq);
            let value = text_of(piece.as_slice(), eq + 1, piece.len());
            assert(name@ =~= piece@.take(eq as int));
            assert(value@ =~= piece@.skip(eq + 1));
            if text_starts_with(name.as_str(), "%UTF8%") {
                let key = text_of(piece.as_slice(), 6, eq);
                assert(key@ =~= name@.skip(6));
                let meaning = decode_utf8_parameter_value(value.as_str());
                pairs.push((key, meaning));
                assert(pair_views(pairs@) =~= pair_views(before) + seq![(key@, meaning@)]);
            } else {
                pairs.push((name, value));
                assert(pair_views(pairs@) =~= pair_views(before) + seq![(name@, value@)]);
            }
        } else {
            assert(pair_views(pairs@) =~= pair_views(before) + Seq::<Pair>::empty());
        }
        i += 1;
    }
    assert(views(pieces@).take(i as int) =~= views(pieces@));
    pairs
}

/// The value of the last pair whose name is `key`, in whatever case.
pub open spec fn lookup(pairs: Seq<Pair>, key: Seq<char>) -> Option<Seq<char>>
    decreases pairs.len(),
{
    if pairs.len() == 0 {
        None
    } else if same_but_case(pairs.last().0, key) {
        Some(pairs.last().1)
    } else {
        lookup(pairs.drop_last(), key)
    }
}

/// The view of an optional text.
pub open spec fn option_view(text: Option<&str>) -> Option<Seq<char>> {
    match text {
        Some(text) => Some(text@),
        None => None,
    }
}

pub fn param_value<'a>(pairs: &'a [(String, String)], key: &str) -> (r: Option<&'a str>)
    ensures
        option_view(r) == lookup(pair_views(pairs@), key@),
{
    let mut i: usize = pairs.len();
    assert(pair_views(pairs@).take(i as int) =~= pair_views(pairs@));
    while i > 0
        invariant
            i <= pairs@.len(),
            lookup(pair_views(pairs@).take(i as int), key@) == lookup(pair_views(pairs@), key@),
        decreases i,
    {
        assert(pair_views(pairs@).take(i as int).drop_last() =~= pair_views(pairs@).take(i - 1));
        assert(pair_views(pairs@).take(i as int).last() == (pairs@[i - 1].0@, pairs@[i - 1].1@));
        if same_text_but_case(pairs[i - 1].0.as_str(), key) {
            return Some(pairs[i - 1].1.as_str());
        }
        i -= 1;
    }
    None
}

/// The number that the value of `key` writes, white space around it aside.
pub open spec fn lookup_number(pairs: Seq<Pair>, key: Seq<char>) -> Option<nat> {
    match lookup(pairs, key) {
        Some(value) => parsed_number(trim(value)),
        None => None,
    }
}

/// A number, where it is one that fits into `usize`.
pub open spec fn fitting(n: Option<nat>) -> Option<usize> {
    match n {
        Some(n) => if n <= usize::MAX {
            Some(n as usize)
        } else {
            None
        },
        None => None,
    }
}

pub fn parse_usize_param(pairs: &[(String, String)], key: &str) -> (r: Option<usize>)
    ensures
        r == fitting(lookup_number(pair_views(pairs@), key@)),
{
    match param_value(pairs, key) {
        Some(value) => {
            let value = trimmed(value);
            parse_number(value.as_str())
        },
        None => None,
    }
}

} // verus!
