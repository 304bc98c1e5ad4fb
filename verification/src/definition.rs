//! Which tokenizer definitions can be read and used without a panic.
//!
//! A definition is JSON text. The tokenizer crate takes it apart on its own; some definitions
//! make it panic, while it reads them or later, when it encodes. The library looks at the text
//! first and admits the kinds of parts, and the settings of them, with which the crate's code
//! gives a result or an error.
use crate::text::{chars_of, is_space, is_white_space};
use serde_json::Value;
use vstd::prelude::*;

verus! {

/// `serde_json::Value`, carried as it is.
#[verifier::external_type_specification]
#[verifier::external_body]
pub struct ExValue(Value);

/// The value that a JSON text stands for; `None` where the text is not JSON. Of members with
/// one name the last one stays.
pub uninterp spec fn json_value(text: Seq<char>) -> Option<Value>;

/// The member of an object under a name; `None` where there is none, and of what is no object.
pub uninterp spec fn value_member(v: Value, name: Seq<char>) -> Option<Value>;

/// The members of an object, each with its name; `None` of what is no object.
pub uninterp spec fn value_members(v: Value) -> Option<Seq<(Seq<char>, Value)>>;

/// The items of an array; `None` of what is no array.
pub uninterp spec fn value_items(v: Value) -> Option<Seq<Value>>;

/// The characters of a string; `None` of what is no string.
pub uninterp spec fn value_text(v: Value) -> Option<Seq<char>>;

/// A number that is an integer from zero up to `u64::MAX`; `None` of anything else.
pub uninterp spec fn value_number(v: Value) -> Option<u64>;

/// A truth value; `None` of anything else.
pub uninterp spec fn value_bool(v: Value) -> Option<bool>;

/// Whether a value is `null`.
pub uninterp spec fn value_null(v: Value) -> bool;

/// `serde_json::from_str` reads a JSON text, or says why it is none. What the value holds is
/// named and not stated.
#[verifier::external_body]
fn parse_json(text: &str) -> (r: Result<Value, String>)
    ensures
        match r {
            Ok(v) => json_value(text@) == Some(v),
            Err(_) => json_value(text@) is None,
        },
{
    serde_json::from_str(text).map_err(|e| e.to_string())
}

/// `Value::get` with a name gives the member of an object under that name.
#[verifier::external_body]
fn member<'a>(v: &'a Value, name: &str) -> (r: Option<&'a Value>)
    ensures
        match r {
            Some(m) => value_member(*v, name@) == Some(*m),
            None => value_member(*v, name@) is None,
        },
{
    v.get(name)
}

/// The members that some pairs of references stand for.
pub open spec fn pairs_view(pairs: Seq<(&String, &Value)>) -> Seq<(Seq<char>, Value)> {
    pairs.map_values(|p: (&String, &Value)| (p.0@, *p.1))
}

/// `Value::as_object` gives the members of an object.
#[verifier::external_body]
fn members<'a>(v: &'a Value) -> (r: Option<Vec<(&'a String, &'a Value)>>)
    ensures
        match r {
            Some(pairs) => value_members(*v) == Some(pairs_view(pairs@)),
            None => value_members(*v) is None,
        },
{
    v.as_object().map(|m| m.iter().collect())
}

/// `Value::as_array` gives the items of an array.
#[verifier::external_body]
fn items<'a>(v: &'a Value) -> (r: Option<&'a Vec<Value>>)
    ensures
        match r {
            Some(all) => value_items(*v) == Some(all@),
            None => value_items(*v) is None,
        },
{
    v.as_array()
}

/// `Value::as_str` gives a string.
#[verifier::external_body]
fn text_of<'a>(v: &'a Value) -> (r: Option<&'a str>)
    ensures
        match r {
            Some(s) => value_text(*v) == Some(s@),
            None => value_text(*v) is None,
        },
{
    v.as_str()
}

/// `Value::as_u64` gives a number, where it is an integer that fits.
#[verifier::external_body]
fn number_of(v: &Value) -> (r: Option<u64>)
    ensures
        r == value_number(*v),
{
    v.as_u64()
}

/// `Value::as_bool` gives a truth value.
#[verifier::external_body]
fn bool_of(v: &Value) -> (r: Option<bool>)
    ensures
        r == value_bool(*v),
{
    v.as_bool()
}

/// `Value::is_null` tells `null` from everything else.
#[verifier::external_body]
fn is_null(v: &Value) -> (r: bool)
    ensures
        r == value_null(*v),
{
    v.is_null()
}

/// How far the scan of a JSON text has come.
#[derive(Clone, Copy, Debug, PartialEq, Eq, Structural)]
pub struct Scan {
    /// The colons seen outside strings: one for each member of each object.
    pub colons: usize,
    /// Whether a string is open.
    pub quoted: bool,
    /// Whether the last character was a backslash in a string, with nothing before it to
    /// take it for itself.
    pub escaped: bool,
}

/// The scan after one more character.
pub open spec fn scan_step(before: Scan, c: char) -> Scan {
    if before.escaped {
        Scan { escaped: false, ..before }
    } else if before.quoted {
        Scan { escaped: c == '\\', quoted: c != '"', ..before }
    } else if c == ':' {
        Scan { colons: (before.colons + 1) as usize, ..before }
    } else {
        Scan { quoted: c == '"', ..before }
    }
}

/// The scan of a whole text.
pub open spec fn scanned(text: Seq<char>) -> Scan
    decreases text.len(),
{
    if text.len() == 0 {
        Scan { colons: 0, quoted: false, escaped: false }
    } else {
        scan_step(scanned(text.drop_last()), text.last())
    }
}

proof fn lemma_few_colons(text: Seq<char>)
    requires
        text.len() <= usize::MAX,
    ensures
        scanned(text).colons <= text.len(),
    decreases text.len(),
{
    if text.len() > 0 {
        lemma_few_colons(text.drop_last());
    }
}

fn count_colons(text: &str) -> (r: usize)
    ensures
        r == scanned(text@).colons,
{
    let v: Vec<char> = chars_of(text);
    let len: usize = v.len();
    let mut s: Scan = Scan { colons: 0, quoted: false, escaped: false };
    let mut i: usize = 0;
    while i < len
        invariant
            v@ == text@,
            len == v@.len(),
            i <= len,
            s == scanned(text@.take(i as int)),
            s.colons <= i,
        decreases v@.len() - i,
    {
        let c: char = v[i];
        proof {
            let upto = text@.take(i + 1);
            assert(upto.drop_last() == text@.take(i as int));
            assert(upto.last() == c);
            lemma_few_colons(upto);
        }
        s = if s.escaped {
            Scan { colons: s.colons, quoted: s.quoted, escaped: false }
        } else if s.quoted {
            Scan { colons: s.colons, quoted: c != '"', escaped: c == '\\' }
        } else if c == ':' {
            Scan { colons: s.colons + 1, quoted: s.quoted, escaped: s.escaped }
        } else {
            Scan { colons: s.colons, quoted: c == '"', escaped: s.escaped }
        };
        i += 1;
    }
    assert(text@.take(i as int) == text@);
    s.colons
}

/// No value is nested deeper than this: the JSON reader refuses what is.
pub const DEPTH: usize = 128;

/// The values of some members.
pub open spec fn values(pairs: Seq<(Seq<char>, Value)>) -> Seq<Value> {
    pairs.map_values(|p: (Seq<char>, Value)| p.1)
}

/// The number of members of all objects in a value, looking `depth` levels down.
pub open spec fn names_in(v: Value, depth: nat) -> nat
    decreases depth, 0nat,
{
    if depth == 0 {
        0
    } else {
        match value_items(v) {
            Some(all) => names_in_all(all, (depth - 1) as nat),
            None => match value_members(v) {
                Some(pairs) => pairs.len() + names_in_all(values(pairs), (depth - 1) as nat),
                None => 0,
            },
        }
    }
}

/// The number of members of all objects in some values.
pub open spec fn names_in_all(all: Seq<Value>, depth: nat) -> nat
    decreases depth, all.len() + 1,
{
    if all.len() == 0 {
        0
    } else {
        names_in_all(all.drop_last(), depth) + names_in(all.last(), depth)
    }
}

proof fn lemma_names_grow(all: Seq<Value>, k: int, depth: nat)
    requires
        0 <= k <= all.len(),
    ensures
        names_in_all(all.take(k), depth) <= names_in_all(all, depth),
    decreases all.len() - k,
{
    if k == all.len() {
        assert(all.take(k) == all);
    } else {
        lemma_names_grow(all, k + 1, depth);
        assert(all.take(k + 1).drop_last() == all.take(k));
    }
}

fn count_names(v: &Value, depth: usize) -> (r: Option<usize>)
    ensures
        match r {
            Some(n) => n == names_in(*v, depth as nat),
            None => names_in(*v, depth as nat) > usize::MAX,
        },
    decreases depth,
{
    if depth == 0 {
        return Some(0);
    }
    let below: usize = depth - 1;
    if let Some(all) = items(v) {
        let mut total: usize = 0;
        let mut i: usize = 0;
        while i < all.len()
            invariant
                depth == below + 1,
                value_items(*v) == Some(all@),
                i <= all@.len(),
                total == names_in_all(all@.take(i as int), below as nat),
            decreases all@.len() - i,
        {
            proof {
                assert(all@.take(i + 1).drop_last() == all@.take(i as int));
                lemma_names_grow(all@, i + 1, below as nat);
            }
            match count_names(&all[i], below) {
                None => {
                    return None;
                },
                Some(n) => match total.checked_add(n) {
                    None => {
                        return None;
                    },
                    Some(next) => {
                        total = next;
                    },
                },
            }
            i += 1;
        }
        assert(all@.take(i as int) == all@);
        return Some(total);
    }
    if let Some(pairs) = members(v) {
        let ghost all = values(pairs_view(pairs@));
        let len: usize = pairs.len();
        let mut total: usize = len;
        let mut i: usize = 0;
        assert(all.take(0) == Seq::<Value>::empty());
        while i < len
            invariant
                depth == below + 1,
                value_items(*v) is None,
                value_members(*v) == Some(pairs_view(pairs@)),
                all == values(pairs_view(pairs@)),
                len == pairs@.len(),
                i <= len,
                total == len + names_in_all(all.take(i as int), below as nat),
            decreases len - i,
        {
            proof {
                assert(all.take(i + 1).drop_last() == all.take(i as int));
                assert(all.take(i + 1).last() == *pairs@[i as int].1);
                lemma_names_grow(all, i + 1, below as nat);
            }
            match count_names(pairs[i].1, below) {
                None => {
                    return None;
                },
                Some(n) => match total.checked_add(n) {
                    None => {
                        return None;
                    },
                    Some(next) => {
                        total = next;
                    },
                },
            }
            i += 1;
        }
        assert(all.take(i as int) == all);
        return Some(total);
    }
    Some(0)
}

/// Whether no object of a JSON text has two members of one name: the text has no more members
/// than its value.
pub open spec fn no_repeats(text: Seq<char>, root: Value) -> bool {
    scanned(text).colons == names_in(root, DEPTH as nat)
}

fn has_no_repeats(text: &str, root: &Value) -> (r: bool)
    ensures
        r == no_repeats(text@, *root),
{
    match count_names(root, DEPTH) {
        Some(n) => n == count_colons(text),
        None => false,
    }
}

fn same(a: &str, b: &str) -> (r: bool)
    ensures
        r == (a@ == b@),
{
    let x: String = a.to_string();
    let y: String = b.to_string();
    x == y
}

/// The string that a member holds.
pub open spec fn text_at(v: Value, name: Seq<char>) -> Option<Seq<char>> {
    match value_member(v, name) {
        Some(m) => value_text(m),
        None => None,
    }
}

/// The truth value that a member holds.
pub open spec fn bool_at(v: Value, name: Seq<char>) -> Option<bool> {
    match value_member(v, name) {
        Some(m) => value_bool(m),
        None => None,
    }
}

/// Whether a part is of a type.
pub open spec fn typed(v: Value, name: Seq<char>) -> bool {
    text_at(v, "type"@) == Some(name)
}

fn text_member<'a>(v: &'a Value, name: &str) -> (r: Option<&'a str>)
    ensures
        match r {
            Some(s) => text_at(*v, name@) == Some(s@),
            None => text_at(*v, name@) is None,
        },
{
    match member(v, name) {
        Some(m) => text_of(m),
        None => None,
    }
}

fn bool_member(v: &Value, name: &str) -> (r: Option<bool>)
    ensures
        r == bool_at(*v, name@),
{
    match member(v, name) {
        Some(m) => bool_of(m),
        None => None,
    }
}

fn is_typed(v: &Value, name: &str) -> (r: bool)
    ensures
        r == typed(*v, name@),
{
    match text_member(v, "type") {
        Some(s) => same(s, name),
        None => false,
    }
}

/// The normalizers without settings that matter.
pub open spec fn plain_normalizer(v: Value) -> bool {
    typed(v, "NFC"@) || typed(v, "NFD"@) || typed(v, "NFKC"@) || typed(v, "NFKD"@) || typed(
        v,
        "Lowercase"@,
    ) || typed(v, "Strip"@) || typed(v, "StripAccents"@) || typed(v, "Nmt"@) || typed(
        v,
        "ByteLevel"@,
    )
}

/// A BERT normalizer with all of its settings. The type does not tell this one from the others,
/// the settings do.
pub open spec fn bert_normalizer(v: Value) -> bool {
    &&& typed(v, "BertNormalizer"@)
    &&& bool_at(v, "clean_text"@) is Some
    &&& bool_at(v, "handle_chinese_chars"@) is Some
    &&& bool_at(v, "lowercase"@) is Some
    &&& match value_member(v, "strip_accents"@) {
        None => true,
        Some(m) => value_null(m) || value_bool(m) is Some,
    }
}

/// Whether a normalizer is one of those admitted, or a sequence of them. One that prepends
/// is admitted only where `prepending` is, and must have something to prepend.
pub open spec fn normalizer_admitted(v: Value, depth: nat, prepending: bool) -> bool
    decreases depth, 0nat,
{
    ||| plain_normalizer(v)
    ||| bert_normalizer(v)
    ||| prepending && typed(v, "Prepend"@) && (text_at(v, "prepend"@) matches Some(s) && s.len() > 0)
    ||| depth > 0 && typed(v, "Sequence"@) && match value_member(v, "normalizers"@) {
        None => false,
        Some(m) => match value_items(m) {
            None => false,
            Some(all) => normalizers_admitted(all, (depth - 1) as nat, prepending),
        },
    }
}

/// Whether all of some normalizers are admitted.
pub open spec fn normalizers_admitted(all: Seq<Value>, depth: nat, prepending: bool) -> bool
    decreases depth, 1nat,
{
    forall|i: int| 0 <= i < all.len() ==> normalizer_admitted(#[trigger] all[i], depth, prepending)
}

#[verifier::loop_isolation(false)]
fn admits_normalizer(v: &Value, depth: usize, prepending: bool) -> (r: bool)
    ensures
        r == normalizer_admitted(*v, depth as nat, prepending),
    decreases depth,
{
    if is_typed(v, "NFC") || is_typed(v, "NFD") || is_typed(v, "NFKC") || is_typed(v, "NFKD")
        || is_typed(v, "Lowercase") || is_typed(v, "Strip") || is_typed(v, "StripAccents")
        || is_typed(v, "Nmt") || is_typed(v, "ByteLevel") {
        return true;
    }
    if is_typed(v, "BertNormalizer") && bool_member(v, "clean_text").is_some() && bool_member(
        v,
        "handle_chinese_chars",
    ).is_some() && bool_member(v, "lowercase").is_some() {
        let accents: bool = match member(v, "strip_accents") {
            None => true,
            Some(m) => is_null(m) || bool_of(m).is_some(),
        };
        if accents {
            return true;
        }
    }
    if prepending && is_typed(v, "Prepend") {
        if let Some(s) = text_member(v, "prepend") {
            if !s.is_empty() {
                return true;
            }
        }
    }
    if depth == 0 || !is_typed(v, "Sequence") {
        return false;
    }
    match member(v, "normalizers") {
        None => false,
        Some(m) => match items(m) {
            None => false,
            Some(all) => {
                let below: usize = depth - 1;
                let mut i: usize = 0;
                while i < all.len()
                    invariant
                        below < depth,
                        value_items(*m) == Some(all@),
                        i <= all@.len(),
                        forall|j: int|
                            0 <= j < i ==> normalizer_admitted(
                                #[trigger] all@[j],
                                below as nat,
                                prepending,
                            ),
                    decreases all@.len() - i,
                {
                    if !admits_normalizer(&all[i], below, prepending) {
                        assert(!normalizers_admitted(all@, below as nat, prepending));
                        return false;
                    }
                    i += 1;
                }
                true
            },
        },
    }
}

/// Whether a pre-tokenizer is one of those admitted, or a sequence of them. Chunks of a fixed
/// length must not be empty.
pub open spec fn pre_tokenizer_admitted(v: Value, depth: nat) -> bool
    decreases depth, 0nat,
{
    ||| typed(v, "BertPreTokenizer"@)
    ||| typed(v, "Whitespace"@)
    ||| typed(v, "WhitespaceSplit"@)
    ||| typed(v, "Punctuation"@)
    ||| typed(v, "Digits"@)
    ||| typed(v, "CharDelimiterSplit"@)
    ||| typed(v, "Metaspace"@)
    ||| typed(v, "UnicodeScripts"@)
    ||| typed(v, "FixedLength"@) && match value_member(v, "length"@) {
        None => true,
        Some(m) => value_number(m) != Some(0u64),
    }
    ||| depth > 0 && typed(v, "Sequence"@) && match value_member(v, "pretokenizers"@) {
        None => false,
        Some(m) => match value_items(m) {
            None => false,
            Some(all) => pre_tokenizers_admitted(all, (depth - 1) as nat),
        },
    }
}

/// Whether all of some pre-tokenizers are admitted.
pub open spec fn pre_tokenizers_admitted(all: Seq<Value>, depth: nat) -> bool
    decreases depth, 1nat,
{
    forall|i: int| 0 <= i < all.len() ==> pre_tokenizer_admitted(#[trigger] all[i], depth)
}

#[verifier::loop_isolation(false)]
fn admits_pre_tokenizer(v: &Value, depth: usize) -> (r: bool)
    ensures
        r == pre_tokenizer_admitted(*v, depth as nat),
    decreases depth,
{
    if is_typed(v, "BertPreTokenizer") || is_typed(v, "Whitespace") || is_typed(
        v,
        "WhitespaceSplit",
    ) || is_typed(v, "Punctuation") || is_typed(v, "Digits") || is_typed(
        v,
        "CharDelimiterSplit",
    ) || is_typed(v, "Metaspace") || is_typed(v, "UnicodeScripts") {
        return true;
    }
    if is_typed(v, "FixedLength") {
        let some: bool = match member(v, "length") {
            None => true,
            Some(m) => match number_of(m) {
                Some(n) => n != 0,
                None => true,
            },
        };
        if some {
            return true;
        }
    }
    if depth == 0 || !is_typed(v, "Sequence") {
        return false;
    }
    match member(v, "pretokenizers") {
        None => false,
        Some(m) => match items(m) {
            None => false,
            Some(all) => {
                let below: usize = depth - 1;
                let mut i: usize = 0;
                while i < all.len()
                    invariant
                        below < depth,
                        value_items(*m) == Some(all@),
                        i <= all@.len(),
                        forall|j: int|
                            0 <= j < i ==> pre_tokenizer_admitted(#[trigger] all@[j], below as nat),
                    decreases all@.len() - i,
                {
                    if !admits_pre_tokenizer(&all[i], below) {
                        assert(!pre_tokenizers_admitted(all@, below as nat));
                        return false;
                    }
                    i += 1;
                }
                true
            },
        },
    }
}

/// Whether a piece of a template stands for the sentence.
pub open spec fn names_sentence(piece: Value) -> bool {
    value_member(piece, "Sequence"@) is Some
}

/// Whether a piece is the first sentence, or a special token that is listed.
pub open spec fn piece_admitted(piece: Value, tokens: Value) -> bool {
    match value_member(piece, "Sequence"@) {
        Some(s) => text_at(s, "id"@) == Some("A"@),
        None => match value_member(piece, "SpecialToken"@) {
            Some(t) => match text_at(t, "id"@) {
                Some(id) => value_member(tokens, id) is Some,
                None => false,
            },
            None => false,
        },
    }
}

/// Whether all pieces exist, and the sentence is there at most once.
pub open spec fn pieces_admitted(pieces: Seq<Value>, tokens: Value) -> bool {
    &&& forall|i: int| 0 <= i < pieces.len() ==> piece_admitted(#[trigger] pieces[i], tokens)
    &&& forall|i: int, j: int|
        0 <= i < j < pieces.len() ==> !(names_sentence(#[trigger] pieces[i]) && names_sentence(
            #[trigger] pieces[j],
        ))
}

/// Whether the template for a single sentence has pieces that are admitted.
pub open spec fn template_admitted(v: Value) -> bool {
    match (value_member(v, "single"@), value_member(v, "special_tokens"@)) {
        (Some(single), Some(tokens)) => match value_items(single) {
            Some(pieces) => pieces_admitted(pieces, tokens),
            None => false,
        },
        _ => false,
    }
}

fn admits_piece(piece: &Value, tokens: &Value) -> (r: bool)
    ensures
        r == piece_admitted(*piece, *tokens),
{
    match member(piece, "Sequence") {
        Some(s) => match text_member(s, "id") {
            Some(id) => same(id, "A"),
            None => false,
        },
        None => match member(piece, "SpecialToken") {
            Some(t) => match text_member(t, "id") {
                Some(id) => member(tokens, id).is_some(),
                None => false,
            },
            None => false,
        },
    }
}

#[verifier::loop_isolation(false)]
fn admits_template(v: &Value) -> (r: bool)
    ensures
        r == template_admitted(*v),
{
    match (member(v, "single"), member(v, "special_tokens")) {
        (Some(single), Some(tokens)) => match items(single) {
            Some(pieces) => {
                let mut named: bool = false;
                let ghost mut at: int = 0;
                let mut i: usize = 0;
                while i < pieces.len()
                    invariant
                        value_items(*single) == Some(pieces@),
                        i <= pieces@.len(),
                        forall|j: int|
                            0 <= j < i ==> piece_admitted(#[trigger] pieces@[j], *tokens),
                        named ==> 0 <= at < i && names_sentence(pieces@[at]),
                        forall|j: int|
                            0 <= j < i && names_sentence(#[trigger] pieces@[j]) ==> named && j
                                == at,
                    decreases pieces@.len() - i,
                {
                    if !admits_piece(&pieces[i], tokens) {
                        assert(!piece_admitted(pieces@[i as int], *tokens));
                        assert(!pieces_admitted(pieces@, *tokens));
                        return false;
                    }
                    if member(&pieces[i], "Sequence").is_some() {
                        if named {
                            assert(names_sentence(pieces@[at]) && names_sentence(
                                pieces@[i as int],
                            ));
                            assert(!pieces_admitted(pieces@, *tokens));
                            return false;
                        }
                        named = true;
                        proof {
                            at = i as int;
                        }
                    }
                    i += 1;
                }
                true
            },
            None => false,
        },
        _ => false,
    }
}

/// Whether a post-processor inside a sequence is admitted: a template only at the end, since
/// it hands more than one row on, and no further sequence. A sequence is what has a list of
/// post-processors, in whatever form its type is written.
pub open spec fn stage_admitted(v: Value, last: bool) -> bool {
    &&& value_members(v) is Some
    &&& value_member(v, "processors"@) is None
    &&& value_member(v, "single"@) is Some ==> last && template_admitted(v)
}

/// Whether a post-processor is admitted: a template, a sequence, or one that only adds a token
/// on either side or moves offsets. What has a single template is read as a template.
pub open spec fn post_processor_admitted(v: Value) -> bool {
    ||| stage_admitted(v, true)
    ||| value_members(v) is Some && value_member(v, "single"@) is None && match value_member(
        v,
        "processors"@,
    ) {
        None => false,
        Some(m) => match value_items(m) {
            None => false,
            Some(all) => stages_admitted(all),
        },
    }
}

/// Whether all post-processors of a sequence are admitted.
pub open spec fn stages_admitted(all: Seq<Value>) -> bool {
    forall|i: int| 0 <= i < all.len() ==> stage_admitted(#[trigger] all[i], i == all.len() - 1)
}

fn admits_stage(v: &Value, last: bool) -> (r: bool)
    ensures
        r == stage_admitted(*v, last),
{
    members(v).is_some() && member(v, "processors").is_none() && (member(v, "single").is_none() || (
    last && admits_template(v)))
}

#[verifier::loop_isolation(false)]
fn admits_post_processor(v: &Value) -> (r: bool)
    ensures
        r == post_processor_admitted(*v),
{
    if admits_stage(v, true) {
        return true;
    }
    if members(v).is_none() || member(v, "single").is_some() {
        return false;
    }
    match member(v, "processors") {
        None => false,
        Some(m) => match items(m) {
            None => false,
            Some(all) => {
                let mut i: usize = 0;
                while i < all.len()
                    invariant
                        value_items(*m) == Some(all@),
                        i <= all@.len(),
                        forall|j: int|
                            0 <= j < i ==> stage_admitted(
                                #[trigger] all@[j],
                                j == all@.len() - 1,
                            ),
                    decreases all@.len() - i,
                {
                    let last: bool = i == all.len() - 1;
                    if !admits_stage(&all[i], last) {
                        assert(!stages_admitted(all@));
                        return false;
                    }
                    i += 1;
                }
                true
            },
        },
    }
}

/// The number of added tokens that a definition lists.
pub open spec fn added_count(root: Value) -> nat {
    match value_member(root, "added_tokens"@) {
        None => 0,
        Some(m) => match value_items(m) {
            None => 0,
            Some(all) => all.len(),
        },
    }
}

/// Whether a part of a definition is there.
pub open spec fn present(root: Value, name: Seq<char>) -> bool {
    value_member(root, name) matches Some(m) && !value_null(m)
}

/// Whether an added token is looked for in the text as it stands.
pub open spec fn raw(token: Value) -> bool {
    bool_at(token, "normalized"@) == Some(false)
}

/// Whether all of some added tokens are looked for in the text as it stands.
pub open spec fn all_raw(all: Seq<Value>) -> bool {
    forall|i: int| 0 <= i < all.len() ==> raw(#[trigger] all[i])
}

/// Whether all added tokens of a definition are looked for in the text as it stands.
pub open spec fn raw_tokens(root: Value) -> bool {
    match value_member(root, "added_tokens"@) {
        None => true,
        Some(m) => match value_items(m) {
            None => true,
            Some(all) => all_raw(all),
        },
    }
}

/// Whether a string has only ASCII characters that are seen. No admitted normalizer but one
/// that prepends changes their number.
pub open spec fn graphic(s: Seq<char>) -> bool {
    forall|i: int| 0 <= i < s.len() ==> '!' <= #[trigger] s[i] <= '~'
}

/// Whether an added token is admitted. One that is normalized must not become empty or longer.
pub open spec fn added_token_admitted(token: Value, normalizes: bool) -> bool {
    !normalizes || raw(token) || graphic(content_of(token))
}

/// Whether an added token leaves the white space after it alone.
pub open spec fn leaves_space(token: Value) -> bool {
    bool_at(token, "rstrip"@) == Some(false)
}

/// Whether an added token begins with white space.
pub open spec fn opens_blank(token: Value) -> bool {
    content_of(token).len() > 0 && is_space(content_of(token)[0])
}

/// Whether no added token can begin in the white space that another one takes.
pub open spec fn spaces_apart(all: Seq<Value>) -> bool {
    ||| forall|i: int| 0 <= i < all.len() ==> leaves_space(#[trigger] all[i])
    ||| forall|i: int| 0 <= i < all.len() ==> !opens_blank(#[trigger] all[i])
}

/// Whether all added tokens are admitted.
pub open spec fn added_tokens_admitted(root: Value) -> bool {
    match value_member(root, "added_tokens"@) {
        None => true,
        Some(m) => match value_items(m) {
            None => true,
            Some(all) => each_added_admitted(all, present(root, "normalizer"@)),
        },
    }
}

/// Whether each of some added tokens is admitted, none can begin inside another, and there is
/// not too much of them to search for.
pub open spec fn each_added_admitted(all: Seq<Value>, normalizes: bool) -> bool {
    &&& forall|i: int| 0 <= i < all.len() ==> added_token_admitted(#[trigger] all[i], normalizes)
    &&& spaces_apart(all)
    &&& all.len() * content_chars(all) < SEARCHABLE
}

/// The added tokens are searched for with an automaton. For each character of a token it has no
/// more than four states, and for each state no more entries than there are tokens; together
/// they must be fewer than `i32::MAX`.
pub const SEARCHABLE: usize = 0x800_0000;

/// The characters of an added token.
pub open spec fn content_of(token: Value) -> Seq<char> {
    match text_at(token, "content"@) {
        Some(s) => s,
        None => Seq::empty(),
    }
}

/// The number of characters of some added tokens.
pub open spec fn content_chars(all: Seq<Value>) -> nat
    decreases all.len(),
{
    if all.len() == 0 {
        0
    } else {
        content_chars(all.drop_last()) + content_of(all.last()).len()
    }
}

proof fn lemma_contents_grow(all: Seq<Value>, k: int)
    requires
        0 <= k <= all.len(),
    ensures
        content_chars(all.take(k)) <= content_chars(all),
    decreases all.len() - k,
{
    if k == all.len() {
        assert(all.take(k) == all);
    } else {
        lemma_contents_grow(all, k + 1);
        assert(all.take(k + 1).drop_last() == all.take(k));
    }
}

fn content_len(token: &Value) -> (r: usize)
    ensures
        r == content_of(*token).len(),
{
    match text_member(token, "content") {
        Some(s) => chars_of(s).len(),
        None => 0,
    }
}

/// The entries of a model's vocabulary; `None` where it has no table of them.
pub open spec fn vocabulary(v: Value) -> Option<Seq<(Seq<char>, Value)>> {
    match value_member(v, "vocab"@) {
        None => None,
        Some(m) => value_members(m),
    }
}

/// Whether a model is one of those admitted, and its ids leave room to number the added tokens.
/// A model that names no type is read as a word piece or word level model where it has a table
/// of words and no merges.
pub open spec fn model_admitted(v: Value, added: nat) -> bool {
    &&& typed(v, "WordPiece"@) || typed(v, "WordLevel"@) || (value_member(v, "type"@) is None
        && value_member(v, "merges"@) is None && vocabulary(v) is Some)
    &&& match vocabulary(v) {
        None => true,
        Some(entries) => ids_admitted(entries, added),
    }
}

/// The number of ids that there are: every `u32` is one.
pub const IDS: u64 = 0x1_0000_0000;

/// Whether all ids of a vocabulary, and its size, leave room to number some more tokens.
pub open spec fn ids_admitted(entries: Seq<(Seq<char>, Value)>, added: nat) -> bool {
    &&& entries.len() + added <= IDS
    &&& forall|i: int| 0 <= i < entries.len() ==> id_admitted((#[trigger] entries[i]).1, added)
}

/// Whether an id leaves room to number some more tokens after it.
pub open spec fn id_admitted(v: Value, added: nat) -> bool {
    value_number(v) matches Some(n) ==> n + added <= IDS
}

fn is_present(root: &Value, name: &str) -> (r: bool)
    ensures
        r == present(*root, name@),
{
    match member(root, name) {
        Some(m) => !is_null(m),
        None => false,
    }
}

fn is_raw(token: &Value) -> (r: bool)
    ensures
        r == raw(*token),
{
    match bool_member(token, "normalized") {
        Some(b) => !b,
        None => false,
    }
}

#[verifier::loop_isolation(false)]
fn has_raw_tokens(root: &Value) -> (r: bool)
    ensures
        r == raw_tokens(*root),
{
    match member(root, "added_tokens") {
        None => true,
        Some(m) => match items(m) {
            None => true,
            Some(all) => {
                let mut i: usize = 0;
                while i < all.len()
                    invariant
                        value_items(*m) == Some(all@),
                        i <= all@.len(),
                        forall|j: int| 0 <= j < i ==> raw(#[trigger] all@[j]),
                    decreases all@.len() - i,
                {
                    if !is_raw(&all[i]) {
                        assert(!all_raw(all@));
                        return false;
                    }
                    i += 1;
                }
                true
            },
        },
    }
}

fn is_graphic(token: &Value) -> (r: bool)
    ensures
        r == graphic(content_of(*token)),
{
    match text_member(token, "content") {
        None => true,
        Some(s) => {
            let v: Vec<char> = chars_of(s);
            let mut i: usize = 0;
            while i < v.len()
                invariant
                    v@ == content_of(*token),
                    i <= v@.len(),
                    forall|j: int| 0 <= j < i ==> '!' <= #[trigger] v@[j] <= '~',
                decreases v@.len() - i,
            {
                if v[i] < '!' || '~' < v[i] {
                    assert(!('!' <= v@[i as int] <= '~'));
                    return false;
                }
                i += 1;
            }
            true
        },
    }
}

fn begins_blank(token: &Value) -> (r: bool)
    ensures
        r == opens_blank(*token),
{
    match text_member(token, "content") {
        None => false,
        Some(s) => {
            let v: Vec<char> = chars_of(s);
            v.len() > 0 && is_white_space(v[0])
        },
    }
}

fn has_spaces_apart(all: &Vec<Value>) -> (r: bool)
    ensures
        r == spaces_apart(all@),
{
    let mut takes: bool = false;
    let mut blank: bool = false;
    let ghost mut taker: int = 0;
    let ghost mut opener: int = 0;
    let mut i: usize = 0;
    while i < all.len()
        invariant
            i <= all@.len(),
            takes ==> 0 <= taker < i && !leaves_space(all@[taker]),
            !takes ==> forall|j: int| 0 <= j < i ==> leaves_space(#[trigger] all@[j]),
            blank ==> 0 <= opener < i && opens_blank(all@[opener]),
            !blank ==> forall|j: int| 0 <= j < i ==> !opens_blank(#[trigger] all@[j]),
        decreases all@.len() - i,
    {
        let kept: bool = match bool_member(&all[i], "rstrip") {
            Some(b) => !b,
            None => false,
        };
        if !kept {
            takes = true;
            proof {
                taker = i as int;
            }
        }
        if begins_blank(&all[i]) {
            blank = true;
            proof {
                opener = i as int;
            }
        }
        i += 1;
    }
    !takes || !blank
}

#[verifier::loop_isolation(false)]
fn admits_added_tokens(root: &Value) -> (r: Option<usize>)
    ensures
        match r {
            Some(n) => added_tokens_admitted(*root) && n == added_count(*root),
            None => !added_tokens_admitted(*root),
        },
{
    let normalizes: bool = is_present(root, "normalizer");
    match member(root, "added_tokens") {
        None => Some(0),
        Some(m) => match items(m) {
            None => Some(0),
            Some(all) => {
                let mut chars: usize = 0;
                let mut i: usize = 0;
                while i < all.len()
                    invariant
                        value_items(*m) == Some(all@),
                        i <= all@.len(),
                        forall|j: int|
                            0 <= j < i ==> added_token_admitted(#[trigger] all@[j], normalizes),
                        chars == content_chars(all@.take(i as int)),
                        chars < SEARCHABLE,
                    decreases all@.len() - i,
                {
                    if normalizes && !is_raw(&all[i]) && !is_graphic(&all[i]) {
                        assert(!added_token_admitted(all@[i as int], normalizes));
                        assert(!each_added_admitted(all@, normalizes));
                        return None;
                    }
                    let more: usize = content_len(&all[i]);
                    proof {
                        assert(all@.take(i + 1).drop_last() == all@.take(i as int));
                        lemma_contents_grow(all@, i + 1);
                    }
                    if more >= SEARCHABLE - chars {
                        let ghost total = content_chars(all@);
                        assert(all@.len() * total >= SEARCHABLE) by (nonlinear_arith)
                            requires
                                all@.len() >= 1,
                                total >= SEARCHABLE,
                        ;
                        assert(!each_added_admitted(all@, normalizes));
                        return None;
                    }
                    chars = chars + more;
                    i += 1;
                }
                assert(all@.take(i as int) == all@);
                let len: usize = all.len();
                assert(0 <= len * chars <= 0xffff_ffff_ffff_ffff * 0x800_0000) by (nonlinear_arith)
                    requires
                        0 <= len <= 0xffff_ffff_ffff_ffff,
                        0 <= chars <= 0x800_0000,
                ;
                if len as u128 * chars as u128 >= SEARCHABLE as u128 || !has_spaces_apart(all) {
                    assert(!each_added_admitted(all@, normalizes));
                    return None;
                }
                Some(len)
            },
        },
    }
}

#[verifier::loop_isolation(false)]
fn admits_model(v: &Value, added: usize) -> (r: bool)
    ensures
        r == model_admitted(*v, added as nat),
{
    let table: Option<Vec<(&String, &Value)>> = match member(v, "vocab") {
        None => None,
        Some(m) => members(m),
    };
    if !is_typed(v, "WordPiece") && !is_typed(v, "WordLevel") {
        if member(v, "type").is_some() || member(v, "merges").is_some() || table.is_none() {
            return false;
        }
    }
    match table {
        None => true,
        Some(pairs) => {
            let most: u128 = IDS as u128;
            let ghost entries = pairs_view(pairs@);
            if pairs.len() as u128 + added as u128 > most {
                assert(!ids_admitted(entries, added as nat));
                return false;
            }
            let mut i: usize = 0;
            while i < pairs.len()
                invariant
                    entries == pairs_view(pairs@),
                    most == IDS,
                    i <= pairs@.len(),
                    forall|j: int|
                        0 <= j < i ==> id_admitted((#[trigger] entries[j]).1, added as nat),
                decreases pairs@.len() - i,
            {
                let fits: bool = match number_of(pairs[i].1) {
                    Some(n) => n as u128 + added as u128 <= most,
                    None => true,
                };
                assert(entries[i as int].1 == *pairs@[i as int].1);
                if !fits {
                    assert(!ids_admitted(entries, added as nat));
                    return false;
                }
                i += 1;
            }
            assert(ids_admitted(entries, added as nat));
            true
        },
    }
}

/// Whether each part of a definition that is there is admitted.
pub open spec fn parts_admitted(root: Value) -> bool {
    &&& match value_member(root, "normalizer"@) {
        None => true,
        Some(m) => value_null(m) || normalizer_admitted(m, DEPTH as nat, raw_tokens(root)),
    }
    &&& match value_member(root, "pre_tokenizer"@) {
        None => true,
        Some(m) => value_null(m) || pre_tokenizer_admitted(m, DEPTH as nat),
    }
    &&& match value_member(root, "post_processor"@) {
        None => true,
        Some(m) => value_null(m) || post_processor_admitted(m),
    }
    &&& added_tokens_admitted(root)
    &&& match value_member(root, "model"@) {
        None => true,
        Some(m) => model_admitted(m, added_count(root)),
    }
}

fn admits_parts(root: &Value) -> (r: bool)
    ensures
        r == parts_admitted(*root),
{
    let normalizer: bool = match member(root, "normalizer") {
        None => true,
        Some(m) => is_null(m) || admits_normalizer(m, DEPTH, has_raw_tokens(root)),
    };
    let pre_tokenizer: bool = match member(root, "pre_tokenizer") {
        None => true,
        Some(m) => is_null(m) || admits_pre_tokenizer(m, DEPTH),
    };
    let post_processor: bool = match member(root, "post_processor") {
        None => true,
        Some(m) => is_null(m) || admits_post_processor(m),
    };
    if !normalizer || !pre_tokenizer || !post_processor {
        return false;
    }
    match admits_added_tokens(root) {
        None => false,
        Some(added) => match member(root, "model") {
            None => true,
            Some(m) => admits_model(m, added),
        },
    }
}

/// Whether a definition is admitted: JSON without repeated names, and every part of a kind
/// that cannot make the tokenizer panic.
pub open spec fn admitted(text: Seq<char>) -> bool {
    match json_value(text) {
        None => false,
        Some(root) => no_repeats(text, root) && parts_admitted(root),
    }
}

/// What looking at a definition comes to.
#[derive(Debug)]
pub enum Reading {
    /// The definition is admitted.
    Admitted,
    /// The text is not JSON, for the reason given.
    NotJson(String),
    /// The text is JSON, but not a definition that is admitted.
    Refused,
}

/// Looks at a definition.
pub fn read_definition(text: &str) -> (r: Reading)
    ensures
        match r {
            Reading::Admitted => admitted(text@),
            Reading::NotJson(_) => json_value(text@) is None,
            Reading::Refused => json_value(text@) is Some && !admitted(text@),
        },
{
    match parse_json(text) {
        Err(message) => Reading::NotJson(message),
        Ok(root) => {
            if has_no_repeats(text, &root) && admits_parts(&root) {
                Reading::Admitted
            } else {
                Reading::Refused
            }
        },
    }
}

proof fn lemma_scan_string(before: Seq<char>, inner: Seq<char>)
    requires
        !scanned(before).quoted,
        !scanned(before).escaped,
        forall|i: int| 0 <= i < inner.len() ==> #[trigger] inner[i] != '"' && inner[i] != '\\',
    ensures
        scanned(before + seq!['"'] + inner) == (Scan { quoted: true, ..scanned(before) }),
    decreases inner.len(),
{
    let open = before + seq!['"'];
    if inner.len() == 0 {
        assert(open + inner =~= open);
        assert(open.drop_last() =~= before);
        assert(open.last() == '"');
    } else {
        let front = inner.drop_last();
        assert forall|i: int| 0 <= i < front.len() implies #[trigger] front[i] != '"' && front[i]
            != '\\' by {
            assert(front[i] == inner[i]);
        }
        lemma_scan_string(before, front);
        let whole = open + inner;
        assert(whole.drop_last() =~= open + front);
        assert(whole.last() == inner[inner.len() - 1]);
    }
}

/// The scan counts the colons that stand outside strings. A colon there counts once, a string adds
/// nothing whatever colons it has, and no other character counts.
pub proof fn colons_count_outside_strings(before: Seq<char>, inner: Seq<char>, c: char)
    requires
        before.len() < usize::MAX,
        !scanned(before).quoted,
        !scanned(before).escaped,
        forall|i: int| 0 <= i < inner.len() ==> #[trigger] inner[i] != '"' && inner[i] != '\\',
        c != ':',
        c != '"',
    ensures
        scanned(before.push(':')) == (Scan {
            colons: (scanned(before).colons + 1) as usize,
            quoted: false,
            escaped: false,
        }),
        scanned(before.push(c)) == scanned(before),
        scanned((before + seq!['"'] + inner).push('"')) == scanned(before),
        scanned(Seq::empty()) == (Scan { colons: 0, quoted: false, escaped: false }),
{
    lemma_few_colons(before);
    assert(before.push(':').drop_last() =~= before);
    assert(before.push(c).drop_last() =~= before);
    lemma_scan_string(before, inner);
    let open = before + seq!['"'] + inner;
    assert(open.push('"').drop_last() =~= open);
}

/// A sequence of normalizers is admitted exactly when each of them is, however many there are.
pub proof fn sequences_go_part_by_part(v: Value, list: Value, all: Seq<Value>, depth: nat, p: bool)
    requires
        typed(v, "Sequence"@),
        value_member(v, "normalizers"@) == Some(list),
        value_items(list) == Some(all),
    ensures
        normalizer_admitted(v, depth + 1, p) <==> forall|i: int|
            0 <= i < all.len() ==> normalizer_admitted(#[trigger] all[i], depth, p),
{
    reveal_strlit("Sequence");
    reveal_strlit("NFC");
    reveal_strlit("NFD");
    reveal_strlit("NFKC");
    reveal_strlit("NFKD");
    reveal_strlit("Lowercase");
    reveal_strlit("Strip");
    reveal_strlit("StripAccents");
    reveal_strlit("Nmt");
    reveal_strlit("ByteLevel");
    reveal_strlit("BertNormalizer");
    reveal_strlit("Prepend");
    let s = "Sequence"@;
    assert(s.len() == 8 && s[0] == 'S');
    assert("NFC"@.len() == 3 && "NFD"@.len() == 3 && "NFKC"@.len() == 4 && "NFKD"@.len() == 4);
    assert("Lowercase"@.len() == 9 && "Strip"@.len() == 5 && "StripAccents"@.len() == 12);
    assert("Nmt"@.len() == 3 && "ByteLevel"@.len() == 9 && "BertNormalizer"@.len() == 14);
    assert("Prepend"@.len() == 7);
    assert(normalizer_admitted(v, depth + 1, p) <==> normalizers_admitted(all, depth, p));
}

/// A sequence of pre-tokenizers is admitted exactly when each of them is, however many there are.
pub proof fn splitters_go_part_by_part(v: Value, list: Value, all: Seq<Value>, depth: nat)
    requires
        typed(v, "Sequence"@),
        value_member(v, "pretokenizers"@) == Some(list),
        value_items(list) == Some(all),
    ensures
        pre_tokenizer_admitted(v, depth + 1) <==> forall|i: int|
            0 <= i < all.len() ==> pre_tokenizer_admitted(#[trigger] all[i], depth),
{
    reveal_strlit("Sequence");
    reveal_strlit("BertPreTokenizer");
    reveal_strlit("Whitespace");
    reveal_strlit("WhitespaceSplit");
    reveal_strlit("Punctuation");
    reveal_strlit("Digits");
    reveal_strlit("CharDelimiterSplit");
    reveal_strlit("Metaspace");
    reveal_strlit("UnicodeScripts");
    reveal_strlit("FixedLength");
    assert("Sequence"@.len() == 8);
    assert("BertPreTokenizer"@.len() == 16 && "Whitespace"@.len() == 10);
    assert("WhitespaceSplit"@.len() == 15 && "Punctuation"@.len() == 11 && "Digits"@.len() == 6);
    assert("CharDelimiterSplit"@.len() == 18 && "Metaspace"@.len() == 9);
    assert("UnicodeScripts"@.len() == 14 && "FixedLength"@.len() == 11);
    assert(pre_tokenizer_admitted(v, depth + 1) <==> pre_tokenizers_admitted(all, depth));
}

/// A template that is admitted can be filled from one sentence: each piece is the first sentence
/// or a special token that the template lists, and the sentence is there no more than once.
pub proof fn templates_can_be_filled(v: Value, single: Value, tokens: Value, pieces: Seq<Value>)
    requires
        value_member(v, "single"@) == Some(single),
        value_member(v, "special_tokens"@) == Some(tokens),
        value_items(single) == Some(pieces),
    ensures
        template_admitted(v) ==> forall|i: int|
            0 <= i < pieces.len() ==> match value_member(#[trigger] pieces[i], "Sequence"@) {
                Some(s) => value_member(s, "id"@) matches Some(id) && value_text(id) == Some("A"@),
                None => value_member(pieces[i], "SpecialToken"@) matches Some(t) && (value_member(
                    t,
                    "id"@,
                ) matches Some(id) && (value_text(id) matches Some(name) && value_member(
                    tokens,
                    name,
                ) is Some)),
            },
        template_admitted(v) ==> forall|i: int, j: int|
            0 <= i < j < pieces.len() ==> value_member(#[trigger] pieces[i], "Sequence"@) is None
                || value_member(#[trigger] pieces[j], "Sequence"@) is None,
{
    if template_admitted(v) {
        assert(pieces_admitted(pieces, tokens));
        assert forall|i: int| 0 <= i < pieces.len() implies match value_member(
            #[trigger] pieces[i],
            "Sequence"@,
        ) {
            Some(s) => value_member(s, "id"@) matches Some(id) && value_text(id) == Some("A"@),
            None => value_member(pieces[i], "SpecialToken"@) matches Some(t) && (value_member(
                t,
                "id"@,
            ) matches Some(id) && (value_text(id) matches Some(name) && value_member(
                tokens,
                name,
            ) is Some)),
        } by {
            assert(piece_admitted(pieces[i], tokens));
        }
        assert forall|i: int, j: int| 0 <= i < j < pieces.len() implies value_member(
            #[trigger] pieces[i],
            "Sequence"@,
        ) is None || value_member(#[trigger] pieces[j], "Sequence"@) is None by {
            assert(!(names_sentence(pieces[i]) && names_sentence(pieces[j])));
        }
    }
}

} // verus!
