//! Section keys: the storage names under which the components of a library
//! stand in its compound file.

use vstd::prelude::*;
use crate::text::{
    chars_of, char_is_alphanumeric, decimal, decimal_text, has_text, is_alphanumeric, is_digit,
    lemma_decimal, lemma_decimal_injective, lemma_family_used, same_text, text_of, trim, trimmed,
    views,
};
use crate::compound::{child_path, compound_streams, read_stream, root_path, Compound, Streams};
use crate::error::{AppError, Failure};
use crate::params::{option_view, pair_views, Pair};

verus! {

/// Whether `c` may stand in a section key as it is.
pub open spec fn is_key_char(c: char) -> bool {
    is_alphanumeric(c) || c == '_' || c == '-' || c == '.'
}

/// What `c` becomes in a section key.
pub open spec fn key_char(c: char) -> char {
    if is_key_char(c) {
        c
    } else {
        '_'
    }
}

/// The first `n` characters of `text`, or all of it where it is shorter.
pub open spec fn prefix(text: Seq<char>, n: int) -> Seq<char> {
    if text.len() <= n {
        text
    } else {
        text.take(n)
    }
}

/// The section key that `name` asks for: at most 31 characters of the trimmed
/// name, each made fit for a key.
pub open spec fn base_key(name: Seq<char>) -> Seq<char> {
    let key = prefix(trim(name), 31).map_values(|c: char| key_char(c));
    if key.len() == 0 {
        seq!['_']
    } else {
        key
    }
}

pub fn section_key_from_name(name: &str) -> (key: String)
    ensures
        key@ == base_key(name@),
{
    let name = trimmed(name);
    let chars = chars_of(name.as_str());
    let mut key = String::new();
    let mut i: usize = 0;
    while i < chars.len() && i < 31
        invariant
            i <= chars@.len(),
            i <= 31,
            chars@ == name@,
            key@ == name@.take(i as int).map_values(|c: char| key_char(c)),
        decreases 31 - i,
    {
        let c = chars[i];
        assert(name@.take(i + 1) =~= name@.take(i as int).push(c));
        if char_is_alphanumeric(c) || c == '_' || c == '-' || c == '.' {
            key.push(c);
        } else {
            key.push('_');
        }
        assert(key@ =~= name@.take(i + 1).map_values(|c: char| key_char(c)));
        i += 1;
    }
    assert(name@.take(i as int) =~= prefix(name@, 31));
    if i == 0 {
        let mut fallback = String::new();
        fallback.push('_');
        assert(fallback@ =~= seq!['_']);
        fallback
    } else {
        key
    }
}

/// The section key that stands in for `base` at the `index`-th try: as much of
/// `base` as leaves room for `_` and the index within 31 characters.
pub open spec fn numbered_key(base: Seq<char>, index: nat) -> Seq<char> {
    let suffix = seq!['_'] + decimal(index);
    let room = if suffix.len() < 30 {
        31 - suffix.len()
    } else {
        1
    };
    prefix(base, room) + suffix
}

pub proof fn lemma_numbered_key_injective(base: Seq<char>, m: nat, n: nat)
    requires
        numbered_key(base, m) == numbered_key(base, n),
    ensures
        m == n,
{
    lemma_decimal(m);
    lemma_decimal(n);
    let a = numbered_key(base, m);
    let b = numbered_key(base, n);
    let len = a.len() as int;
    let dm = decimal(m).len() as int;
    let dn = decimal(n).len() as int;
    assert(a[len - dm - 1] == '_');
    assert(b[len - dn - 1] == '_');
    assert(a.skip(len - dm) =~= decimal(m));
    assert(b.skip(len - dn) =~= decimal(n));
    if dm < dn {
        assert(b[len - dm - 1] == decimal(n)[dn - dm - 1]);
        assert(is_digit(decimal(n)[dn - dm - 1]));
    } else if dn < dm {
        assert(a[len - dn - 1] == decimal(m)[dm - dn - 1]);
        assert(is_digit(decimal(m)[dm - dn - 1]));
    } else {
        lemma_decimal_injective(m, n);
    }
}

/// Whether `index` is the first number from 2 on whose key is not among `used`.
pub open spec fn is_first_free(base: Seq<char>, used: Seq<Seq<char>>, index: nat) -> bool {
    &&& index >= 2
    &&& !used.contains(numbered_key(base, index))
    &&& forall|i: nat| 2 <= i < index ==> used.contains(#[trigger] numbered_key(base, i))
}

/// The section key for `name` where the keys `used` are taken.
pub open spec fn unique_key(name: Seq<char>, used: Seq<Seq<char>>) -> Seq<char> {
    let base = base_key(name);
    if used.contains(base) {
        numbered_key(base, choose|index: nat| is_first_free(base, used, index))
    } else {
        base
    }
}

proof fn lemma_first_free_unique(base: Seq<char>, used: Seq<Seq<char>>, m: nat, n: nat)
    requires
        is_first_free(base, used, m),
        is_first_free(base, used, n),
    ensures
        m == n,
{
    if m < n {
        assert(used.contains(numbered_key(base, m)));
    } else if n < m {
        assert(used.contains(numbered_key(base, n)));
    }
}

proof fn lemma_tries_bounded(base: Seq<char>, used: Seq<Seq<char>>, index: nat)
    requires
        index >= 2,
        forall|i: nat| 2 <= i < index ==> used.contains(#[trigger] numbered_key(base, i)),
    ensures
        index - 2 <= used.len(),
{
    let family = |i: nat| numbered_key(base, i + 2);
    assert forall|i: nat, j: nat| i < j < index - 2 implies #[trigger] family(i)
        != #[trigger] family(j) by {
        if family(i) == family(j) {
            lemma_numbered_key_injective(base, i + 2, j + 2);
        }
    }
    lemma_family_used(family, (index - 2) as nat, used);
}

fn numbered_section_key(base: &str, index: u128) -> (key: String)
    ensures
        key@ == numbered_key(base@, index as nat),
{
    let chars = chars_of(base);
    let digits = decimal_text(index);
    let digit_count: usize = chars_of(digits.as_str()).len();
    let room: usize = if digit_count < 29 {
        30 - digit_count
    } else {
        1
    };
    let len: usize = if chars.len() <= room {
        chars.len()
    } else {
        room
    };
    let mut key = text_of(chars.as_slice(), 0, len);
    assert(key@ =~= prefix(base@, room as int));
    key.push('_');
    key.append(digits.as_str());
    assert(key@ =~= numbered_key(base@, index as nat));
    key
}

/// Finds a section key for `name` that is not among `used`, and adds it there.
pub fn unique_section_key(name: &str, used: &mut Vec<String>) -> (key: String)
    ensures
        key@ == unique_key(name@, views(old(used)@)),
        views(final(used)@) == views(old(used)@).push(key@),
{
    let ghost before = views(used@);
    let base = section_key_from_name(name);
    if !has_text(used, base.as_str()) {
        let key = base.clone();
        used.push(base);
        assert(views(used@) =~= before.push(key@));
        return key;
    }
    let count: usize = used.len();
    let mut index: u128 = 2;
    loop
        invariant
            before.len() == count,
            base@ == base_key(name@),
            before.contains(base@),
            views(used@) == before,
            2 <= index,
            index - 2 <= before.len(),
            forall|i: nat| 2 <= i < index ==> before.contains(#[trigger] numbered_key(base@, i)),
            before == views(old(used)@),
        decreases before.len() + 2 - index,
    {
        let candidate = numbered_section_key(base.as_str(), index);
        if !has_text(used, candidate.as_str()) {
            proof {
                assert(is_first_free(base@, before, index as nat));
                let chosen = choose|index: nat| is_first_free(base@, before, index);
                lemma_first_free_unique(base@, before, index as nat, chosen);
            }
            let key = candidate.clone();
            used.push(candidate);
            assert(views(used@) =~= before.push(key@));
            return key;
        }
        proof {
            lemma_tries_bounded(base@, before, (index + 1) as nat);
        }
        index += 1;
    }
}

/// The section keys of components with the names `names`, in their order: each
/// is free of those before it.
pub open spec fn section_keys(names: Seq<Seq<char>>) -> Seq<Seq<char>>
    decreases names.len(),
{
    if names.len() == 0 {
        Seq::empty()
    } else {
        let before = section_keys(names.drop_last());
        before.push(unique_key(names.last(), before))
    }
}

pub proof fn lemma_section_keys_len(names: Seq<Seq<char>>)
    ensures
        section_keys(names).len() == names.len(),
    decreases names.len(),
{
    if names.len() > 0 {
        lemma_section_keys_len(names.drop_last());
    }
}

/// Whether `key` is not empty and made of characters that may stand in a key.
pub open spec fn is_key(key: Seq<char>) -> bool {
    key.len() > 0 && forall|i: int| 0 <= i < key.len() ==> is_key_char(#[trigger] key[i])
}

proof fn lemma_unique_key_is_key(name: Seq<char>, used: Seq<Seq<char>>)
    ensures
        is_key(unique_key(name, used)),
{
    let base = base_key(name);
    assert(is_key(base));
    let index = choose|index: nat| is_first_free(base, used, index);
    lemma_decimal(index);
    let key = numbered_key(base, index);
    let suffix = seq!['_'] + decimal(index);
    assert forall|i: int| 0 <= i < key.len() implies is_key_char(#[trigger] key[i]) by {
        let n = key.len() - suffix.len();
        if i < n {
            assert(key[i] == base[i]);
        } else if i > n {
            assert(is_digit(decimal(index)[i - n - 1]));
        }
    }
}

/// Every section key is made of key characters, at least one.
pub proof fn lemma_section_keys_are_keys(names: Seq<Seq<char>>)
    ensures
        forall|i: int| 0 <= i < section_keys(names).len() ==> is_key(#[trigger] section_keys(
            names,
        )[i]),
    decreases names.len(),
{
    if names.len() > 0 {
        let before = section_keys(names.drop_last());
        lemma_section_keys_are_keys(names.drop_last());
        lemma_unique_key_is_key(names.last(), before);
        assert forall|i: int| 0 <= i < section_keys(names).len() implies is_key(
            #[trigger] section_keys(names)[i],
        ) by {
            if i < before.len() {
                assert(section_keys(names)[i] == before[i]);
            }
        }
    }
}

pub fn collect_sections(names: &Vec<String>) -> (sections: Vec<String>)
    ensures
        views(sections@) == section_keys(views(names@)),
{
    let mut sections: Vec<String> = Vec::new();
    let mut i: usize = 0;
    assert(views(names@).take(0) =~= Seq::<Seq<char>>::empty());
    assert(views(sections@) =~= Seq::<Seq<char>>::empty());
    while i < names.len()
        invariant
            i <= names@.len(),
            views(sections@) == section_keys(views(names@).take(i as int)),
        decreases names.len() - i,
    {
        proof {
            let next = views(names@).take(i + 1);
            assert(next.drop_last() =~= views(names@).take(i as int));
            assert(next.last() == names@[i as int]@);
        }
        unique_section_key(names[i].as_str(), &mut sections);
        i += 1;
    }
    assert(views(names@).take(i as int) =~= views(names@));
    sections
}

/// The names whose section key is not the name itself, each with its key, as far
/// as there are both names and keys.
pub open spec fn renamed_keys(names: Seq<Seq<char>>, keys: Seq<Seq<char>>) -> Seq<Pair>
    decreases names.len() + keys.len(),
{
    if names.len() == 0 || keys.len() == 0 {
        Seq::empty()
    } else if names.len() > keys.len() {
        renamed_keys(names.drop_last(), keys)
    } else if keys.len() > names.len() {
        renamed_keys(names, keys.drop_last())
    } else {
        let before = renamed_keys(names.drop_last(), keys.drop_last());
        if keys.last() == names.last() {
            before
        } else {
            before.push((names.last(), keys.last()))
        }
    }
}

/// What goes beyond the shorter of the two makes no difference.
proof fn lemma_renamed_within(names: Seq<Seq<char>>, keys: Seq<Seq<char>>, n: int)
    requires
        0 <= n <= names.len(),
        n <= keys.len(),
        n == names.len() || n == keys.len(),
    ensures
        renamed_keys(names.take(n), keys.take(n)) == renamed_keys(names, keys),
    decreases names.len() + keys.len(),
{
    if names.len() > n {
        let shorter = names.drop_last();
        lemma_renamed_within(shorter, keys, n);
        assert(shorter.take(n) =~= names.take(n));
    } else if keys.len() > n {
        let shorter = keys.drop_last();
        lemma_renamed_within(names, shorter, n);
        assert(shorter.take(n) =~= keys.take(n));
    } else {
        assert(names.take(n) =~= names);
        assert(keys.take(n) =~= keys);
    }
}

pub fn collect_section_key_pairs(names: &Vec<String>, sections: &Vec<String>) -> (pairs: Vec<
    (String, String),
>)
    ensures
        pair_views(pairs@) == renamed_keys(views(names@), views(sections@)),
{
    let mut pairs: Vec<(String, String)> = Vec::new();
    let mut i: usize = 0;
    assert(pair_views(pairs@) =~= Seq::<Pair>::empty());
    while i < names.len() && i < sections.len()
        invariant
            i <= names@.len(),
            i <= sections@.len(),
            pair_views(pairs@) == renamed_keys(
                views(names@).take(i as int),
                views(sections@).take(i as int),
            ),
        decreases names.len() - i,
    {
        let ghost before = pair_views(pairs@);
        proof {
            let n = views(names@).take(i + 1);
            let k = views(sections@).take(i + 1);
            assert(n.drop_last() =~= views(names@).take(i as int));
            assert(k.drop_last() =~= views(sections@).take(i as int));
            assert(n.last() == names@[i as int]@ && k.last() == sections@[i as int]@);
        }
        if !same_text(sections[i].as_str(), names[i].as_str()) {
            pairs.push((names[i].clone(), sections[i].clone()));
            assert(pair_views(pairs@) =~= before.push((names@[i as int]@, sections@[i as int]@)));
        }
        i += 1;
    }
    proof {
        lemma_renamed_within(views(names@), views(sections@), i as int);
    }
    pairs
}

/// The storage name that older libraries gave a component: at most 31
/// characters of its name, with `/` made `_`.
pub open spec fn legacy_key(name: Seq<char>) -> Seq<char> {
    if name.len() == 0 {
        seq!['_']
    } else {
        prefix(name, 31).map_values(
            |c: char|
                if c == '/' {
                    '_'
                } else {
                    c
                },
        )
    }
}

pub fn legacy_section_key_from_name(name: &str) -> (key: String)
    ensures
        key@ == legacy_key(name@),
{
    let chars = chars_of(name);
    let mut key = String::new();
    if chars.len() == 0 {
        key.push('_');
        assert(key@ =~= seq!['_']);
        return key;
    }
    let mut i: usize = 0;
    while i < chars.len() && i < 31
        invariant
            i <= chars@.len(),
            i <= 31,
            chars@ == name@,
            key@.len() == i,
            forall|k: int|
                0 <= k < i ==> #[trigger] key@[k] == if name@[k] == '/' {
                    '_'
                } else {
                    name@[k]
                },
        decreases 31 - i,
    {
        key.push(
            if chars[i] == '/' {
                '_'
            } else {
                chars[i]
            },
        );
        i += 1;
    }
    assert(key@ =~= legacy_key(name@));
    key
}

/// `candidates` with `value` behind them, unless it is empty or among them.
pub open spec fn with_candidate(candidates: Seq<Seq<char>>, value: Seq<char>) -> Seq<Seq<char>> {
    if value.len() == 0 || candidates.contains(value) {
        candidates
    } else {
        candidates.push(value)
    }
}

pub fn push_unique_section_key(candidates: &mut Vec<String>, value: String)
    ensures
        views(final(candidates)@) == with_candidate(views(old(candidates)@), value@),
{
    if value.as_str().is_empty() || has_text(candidates, value.as_str()) {
        return;
    }
    let ghost before = views(candidates@);
    candidates.push(value);
    assert(views(candidates@) =~= before.push(value@));
}

/// The keys under which a component may stand, the likeliest first: what the
/// library says, what the name gives, what older libraries used, and the name.
pub open spec fn key_candidates(
    name: Seq<char>,
    explicit: Option<Seq<char>>,
    derived: Seq<char>,
) -> Seq<Seq<char>> {
    let first = match explicit {
        Some(value) => if trim(value).len() > 0 {
            with_candidate(Seq::empty(), value)
        } else {
            Seq::empty()
        },
        None => Seq::empty(),
    };
    with_candidate(with_candidate(with_candidate(first, derived), legacy_key(name)), name)
}

pub fn section_key_candidates(name: &str, explicit: Option<&str>, derived: &str) -> (candidates:
    Vec<String>)
    ensures
        views(candidates@) == key_candidates(name@, option_view(explicit), derived@),
{
    let mut candidates: Vec<String> = Vec::new();
    assert(views(candidates@) =~= Seq::<Seq<char>>::empty());
    if let Some(explicit) = explicit {
        let bare = trimmed(explicit);
        if !bare.as_str().is_empty() {
            push_unique_section_key(&mut candidates, explicit.to_owned());
        }
    }
    push_unique_section_key(&mut candidates, derived.to_owned());
    push_unique_section_key(&mut candidates, legacy_section_key_from_name(name));
    push_unique_section_key(&mut candidates, name.to_owned());
    candidates
}

/// The path of the stream `stream` in the section `key`.
pub open spec fn section_path(key: Seq<char>, stream: Seq<char>) -> Seq<char> {
    child_path(root_path(key), stream)
}

pub fn section_stream_path(key: &str, stream: &str) -> (path: String)
    ensures
        path@ == section_path(key@, stream@),
{
    let mut path = String::new();
    path.push('/');
    path.append(key);
    path.push('/');
    path.append(stream);
    assert(path@ =~= section_path(key@, stream@));
    path
}

/// How `{:?}` writes a text.
pub uninterp spec fn debug_quoted(text: Seq<char>) -> Seq<char>;

/// The `Debug` formatting of `str`: a function of the text.
#[verifier::external_body]
fn debug_text(text: &str) -> (r: String)
    ensures
        r@ == debug_quoted(text@),
{
    format!("{text:?}")
}

/// The first of `candidates` whose section holds the stream `stream`.
pub open spec fn found_key(
    streams: Streams,
    candidates: Seq<Seq<char>>,
    stream: Seq<char>,
) -> Option<Seq<char>>
    decreases candidates.len(),
{
    if candidates.len() == 0 {
        None
    } else if streams.contains_key(section_path(candidates[0], stream)) {
        Some(candidates[0])
    } else {
        found_key(streams, candidates.drop_first(), stream)
    }
}

/// The paths that were tried, with commas between them.
pub open spec fn tried_paths(candidates: Seq<Seq<char>>, stream: Seq<char>) -> Seq<char>
    decreases candidates.len(),
{
    if candidates.len() == 0 {
        Seq::empty()
    } else if candidates.len() == 1 {
        section_path(candidates[0], stream)
    } else {
        tried_paths(candidates.drop_last(), stream) + ", "@ + section_path(
            candidates.last(),
            stream,
        )
    }
}

/// What looking for the section of the component `name` comes to.
pub open spec fn section_result(
    streams: Streams,
    name: Seq<char>,
    explicit: Option<Seq<char>>,
    derived: Seq<char>,
    stream: Seq<char>,
) -> Result<Seq<char>, Failure> {
    let candidates = key_candidates(name, explicit, derived);
    match found_key(streams, candidates, stream) {
        Some(key) => Ok(key),
        None => Err(
            Failure::Other(
                "component "@ + debug_quoted(name) + " has no "@ + stream + " stream; tried "@
                    + tried_paths(candidates, stream),
            ),
        ),
    }
}

fn tried_paths_text(candidates: &Vec<String>, stream: &str) -> (text: String)
    ensures
        text@ == tried_paths(views(candidates@), stream@),
{
    let mut text = String::new();
    let mut i: usize = 0;
    assert(text@ =~= Seq::<char>::empty());
    while i < candidates.len()
        invariant
            i <= candidates@.len(),
            text@ == tried_paths(views(candidates@).take(i as int), stream@),
        decreases candidates.len() - i,
    {
        let ghost before = text@;
        proof {
            let next = views(candidates@).take(i + 1);
            assert(next.drop_last() =~= views(candidates@).take(i as int));
            assert(next.last() == candidates@[i as int]@);
        }
        let path = section_stream_path(candidates[i].as_str(), stream);
        if i > 0 {
            text.append(", ");
            text.append(path.as_str());
            assert(text@ =~= before + ", "@ + path@);
        } else {
            text = path;
        }
        i += 1;
    }
    assert(views(candidates@).take(i as int) =~= views(candidates@));
    text
}

/// Finds the section that holds the stream `required_stream` of a component.
pub(crate) fn resolve_section_key(
    compound: &mut Compound,
    name: &str,
    explicit: Option<&str>,
    derived: &str,
    required_stream: &str,
) -> (r: Result<String, AppError>)
    ensures
        compound_streams(*final(compound)) == compound_streams(*old(compound)),
        match r {
            Ok(key) => section_result(
                compound_streams(*old(compound)),
                name@,
                option_view(explicit),
                derived@,
                required_stream@,
            ) == Ok::<Seq<char>, Failure>(key@),
            Err(e) => section_result(
                compound_streams(*old(compound)),
                name@,
                option_view(explicit),
                derived@,
                required_stream@,
            ) == Err::<Seq<char>, Failure>(e.failure()),
        },
{
    let candidates = section_key_candidates(name, explicit, derived);
    let ghost all = views(candidates@);
    let ghost streams = compound_streams(*compound);
    let mut i: usize = 0;
    assert(all.skip(0) =~= all);
    while i < candidates.len()
        invariant
            i <= candidates@.len(),
            all == views(candidates@),
            compound_streams(*compound) == streams,
            streams == compound_streams(*old(compound)),
            all == key_candidates(name@, option_view(explicit), derived@),
            found_key(streams, all.skip(i as int), required_stream@) == found_key(
                streams,
                all,
                required_stream@,
            ),
        decreases candidates.len() - i,
    {
        assert(all.skip(i as int)[0] == candidates@[i as int]@);
        assert(all.skip(i as int).drop_first() =~= all.skip(i + 1));
        let path = section_stream_path(candidates[i].as_str(), required_stream);
        if read_stream(compound, path.as_str()).is_ok() {
            return Ok(candidates[i].clone());
        }
        i += 1;
    }
    let tried = tried_paths_text(&candidates, required_stream);
    let quoted = debug_text(name);
    let mut message = "component ".to_owned();
    message.append(quoted.as_str());
    message.append(" has no ");
    message.append(required_stream);
    message.append(" stream; tried ");
    message.append(tried.as_str());
    Err(AppError::Other(message))
}

/// The value of the last pair whose name is exactly `name`.
pub open spec fn key_for(pairs: Seq<Pair>, name: Seq<char>) -> Option<Seq<char>>
    decreases pairs.len(),
{
    if pairs.len() == 0 {
        None
    } else if pairs.last().0 == name {
        Some(pairs.last().1)
    } else {
        key_for(pairs.drop_last(), name)
    }
}

/// Looks a name up, the last pair with it winning.
pub fn explicit_key<'a>(pairs: &'a Vec<(String, String)>, name: &str) -> (r: Option<&'a str>)
    ensures
        option_view(r) == key_for(pair_views(pairs@), name@),
{
    let mut i: usize = pairs.len();
    assert(pair_views(pairs@).take(i as int) =~= pair_views(pairs@));
    while i > 0
        invariant
            i <= pairs@.len(),
            key_for(pair_views(pairs@).take(i as int), name@) == key_for(
                pair_views(pairs@),
                name@,
            ),
        decreases i,
    {
        assert(pair_views(pairs@).take(i as int).drop_last() =~= pair_views(pairs@).take(i - 1));
        assert(pair_views(pairs@).take(i as int).last() == (pairs@[i - 1].0@, pairs@[i - 1].1@));
        if same_text(pairs[i - 1].0.as_str(), name) {
            return Some(pairs[i - 1].1.as_str());
        }
        i -= 1;
    }
    None
}

/// `pairs` with `name` and `key` behind them, unless one of the two is blank.
pub open spec fn with_key(pairs: Seq<Pair>, name: Seq<char>, key: Seq<char>) -> Seq<Pair> {
    if trim(name).len() > 0 && trim(key).len() > 0 {
        pairs.push((name, key))
    } else {
        pairs
    }
}

pub fn push_key(pairs: &mut Vec<(String, String)>, name: String, key: String)
    ensures
        pair_views(final(pairs)@) == with_key(pair_views(old(pairs)@), name@, key@),
{
    let bare_name = trimmed(name.as_str());
    let bare_key = trimmed(key.as_str());
    if !bare_name.as_str().is_empty() && !bare_key.as_str().is_empty() {
        pairs.push((name, key));
        assert(pair_views(pairs@) =~= pair_views(old(pairs)@).push((name@, key@)));
    }
}

proof fn lemma_decimal_len(n: nat, k: nat)
    requires
        n < power_of_ten(k),
        k > 0,
    ensures
        decimal(n).len() <= k,
    decreases k,
{
    if n >= 10 {
        assert(k > 1) by {
            if k == 1 {
                assert(power_of_ten(0) == 1);
            }
        }
        assert(n / 10 < power_of_ten((k - 1) as nat)) by (nonlinear_arith)
            requires
                n < power_of_ten(k),
                power_of_ten(k) == 10 * power_of_ten((k - 1) as nat),
        ;
        lemma_decimal_len(n / 10, (k - 1) as nat);
    }
}

spec fn power_of_ten(k: nat) -> nat
    decreases k,
{
    if k == 0 {
        1
    } else {
        10 * power_of_ten((k - 1) as nat)
    }
}

/// Machine numbers have at most twenty digits.
pub proof fn lemma_short_decimal(n: nat)
    requires
        n < 100_000_000_000_000_000_000,
    ensures
        decimal(n).len() <= 20,
{
    assert(power_of_ten(20) == 100_000_000_000_000_000_000) by {
        reveal_with_fuel(power_of_ten, 21);
    }
    lemma_decimal_len(n, 20);
}

/// Section keys are all different.
pub proof fn law_section_keys_distinct(names: Seq<Seq<char>>)
    ensures
        section_keys(names).no_duplicates(),
        section_keys(names).len() == names.len(),
    decreases names.len(),
{
    lemma_section_keys_len(names);
    if names.len() > 0 {
        law_section_keys_distinct(names.drop_last());
        let used = section_keys(names.drop_last());
        let all = section_keys(names);
        lemma_unique_key_fresh(names.last(), used);
        assert forall|i: int, j: int| 0 <= i < all.len() && 0 <= j < all.len() && i != j implies all[i]
            != all[j] by {
            if i < used.len() && j < used.len() {
                assert(used[i] != used[j]);
            } else if i < used.len() {
                assert(used.contains(used[i]));
            } else if j < used.len() {
                assert(used.contains(used[j]));
            }
        }
    }
}

/// There is a free number, and it is at most two more than there are keys.
pub proof fn lemma_first_free_exists(base: Seq<char>, used: Seq<Seq<char>>, index: nat) -> (free: nat)
    requires
        index >= 2,
        forall|i: nat| 2 <= i < index ==> used.contains(#[trigger] numbered_key(base, i)),
    ensures
        is_first_free(base, used, free),
        free <= used.len() + 2,
    decreases used.len() + 3 - index,
{
    lemma_tries_bounded(base, used, index);
    if used.contains(numbered_key(base, index)) {
        lemma_tries_bounded(base, used, index + 1);
        lemma_first_free_exists(base, used, index + 1)
    } else {
        index
    }
}

proof fn lemma_unique_key_fresh(name: Seq<char>, used: Seq<Seq<char>>)
    ensures
        !used.contains(unique_key(name, used)),
        used.len() <= u64::MAX ==> 1 <= unique_key(name, used).len() <= 31,
{
    let base = base_key(name);
    if used.contains(base) {
        let free = lemma_first_free_exists(base, used, 2);
        let chosen = choose|index: nat| is_first_free(base, used, index);
        lemma_first_free_unique(base, used, free, chosen);
        if used.len() <= u64::MAX {
            lemma_short_decimal(free);
        }
    }
}

/// A section key has from 1 to 31 characters, all of them letters, digits,
/// underscores, dashes or dots.
pub proof fn law_section_key_lengths(names: Seq<Seq<char>>, i: int)
    requires
        0 <= i < names.len() <= u64::MAX,
    ensures
        1 <= section_keys(names)[i].len() <= 31,
        is_key(section_keys(names)[i]),
    decreases names.len(),
{
    let before = section_keys(names.drop_last());
    lemma_section_keys_len(names.drop_last());
    lemma_section_keys_are_keys(names);
    lemma_section_keys_len(names);
    assert(is_key(section_keys(names)[i]));
    if i < names.len() - 1 {
        law_section_key_lengths(names.drop_last(), i);
        assert(section_keys(names)[i] == before[i]);
    } else {
        lemma_unique_key_fresh(names.last(), before);
    }
}

} // verus!
