use crate::error::Error;
use crate::io::{
    cstring_body, cstring_bytes, cstring_rest, lemma_parse_cstring_bytes,
    lemma_parse_cstring_nul_free, nul_free,
};
use crate::le::{
    lemma_concat_assoc, lemma_prefix_split, lemma_skip_none, lemma_word_prefix, u32_at,
    u32_bytes,
};
use linked_hash_map::LinkedHashMap;
use vstd::prelude::*;
use vstd::utf8::{decode_utf8, is_ascii_chars_encode_utf8, valid_utf8};

verus! {

/// One entry of a tag table: its name and its opaque payload.
pub type Tagg = (Seq<char>, Seq<u8>);

/// `linked_hash_map::LinkedHashMap`, a hash map that also keeps its entries
/// in a list: iteration visits them from the oldest to the newest place.
/// Nothing inside it is visible here; `tagg_entries` names what a table holds.
#[verifier::external_type_specification]
#[verifier::external_body]
#[verifier::reject_recursive_types(K)]
#[verifier::reject_recursive_types(V)]
#[verifier::reject_recursive_types(S)]
pub struct ExLinkedHashMap<K, V, S>(LinkedHashMap<K, V, S>);

/// The entries of a tag table in the order in which iteration visits them.
pub uninterp spec fn tagg_entries(m: LinkedHashMap<String, Box<[u8]>>) -> Seq<Tagg>;

/// `LinkedHashMap::new`: a table without entries.
#[verifier::external_body]
pub(crate) fn taggs_new() -> (m: LinkedHashMap<String, Box<[u8]>>)
    ensures
        tagg_entries(m) == Seq::<Tagg>::empty(),
{
    LinkedHashMap::new()
}

/// `LinkedHashMap::insert`: the entry is stored under `name` and becomes the
/// last one visited; an entry that was stored under that name before is
/// replaced and leaves its earlier place. The others keep their order.
#[verifier::external_body]
pub(crate) fn taggs_insert(
    m: &mut LinkedHashMap<String, Box<[u8]>>,
    name: String,
    payload: Vec<u8>,
)
    ensures
        tagg_entries(*final(m)) == moved_last(tagg_entries(*old(m)), name@, payload@),
{
    m.insert(name, payload.into_boxed_slice());
}

/// `LinkedHashMap::contains_key`: whether an entry is stored under `name`.
#[verifier::external_body]
pub(crate) fn taggs_contains(m: &LinkedHashMap<String, Box<[u8]>>, name: &str) -> (r: bool)
    ensures
        r == !name_absent(tagg_entries(*m), name@),
{
    m.contains_key(name)
}

/// `LinkedHashMap::get_mut`, and an assignment through the reference it
/// gives: the entry stored under `name`, if there is one, gets the payload
/// and keeps its place; no entry moves.
#[verifier::external_body]
pub(crate) fn taggs_replace(m: &mut LinkedHashMap<String, Box<[u8]>>, name: &str, payload: Vec<u8>)
    ensures
        tagg_entries(*final(m)) == with_payload(tagg_entries(*old(m)), name@, payload@),
{
    if let Some(slot) = m.get_mut(name) {
        *slot = payload.into_boxed_slice();
    }
}

/// `LinkedHashMap::iter`: the entries in the order of iteration, oldest first,
/// each as a borrowed name and payload.
#[verifier::external_body]
pub(crate) fn taggs_list<'a>(m: &'a LinkedHashMap<String, Box<[u8]>>) -> (r: Vec<
    (&'a str, &'a [u8]),
>)
    ensures
        r@.len() == tagg_entries(*m).len(),
        forall|i: int|
            0 <= i < r@.len() ==> (#[trigger] r@[i]).0@ == tagg_entries(*m)[i].0 && r@[i].1@
                == tagg_entries(*m)[i].1,
{
    m.iter().map(|(k, v)| (k.as_str(), &v[..])).collect()
}

/// The name that closes a tag table.
pub open spec fn sentinel() -> Seq<char> {
    "#EndOfFile#"@
}

/// `entries` without those named `name`, order kept.
pub open spec fn without_name(entries: Seq<Tagg>, name: Seq<char>) -> Seq<Tagg>
    decreases entries.len(),
{
    if entries.len() == 0 {
        entries
    } else if entries.last().0 == name {
        without_name(entries.drop_last(), name)
    } else {
        without_name(entries.drop_last(), name).push(entries.last())
    }
}

/// What `LinkedHashMap::insert` leaves: the entry comes last, and an entry
/// that had the name before is gone from its place.
pub open spec fn moved_last(entries: Seq<Tagg>, name: Seq<char>, payload: Seq<u8>) -> Seq<Tagg> {
    without_name(entries, name).push((name, payload))
}

/// `entries` with `payload` in each entry named `name`, places kept.
pub open spec fn with_payload(entries: Seq<Tagg>, name: Seq<char>, payload: Seq<u8>) -> Seq<Tagg> {
    entries.map_values(
        |e: Tagg|
            if e.0 == name {
                (name, payload)
            } else {
                e
            },
    )
}

/// No entry of `entries` is named `name`.
pub open spec fn name_absent(entries: Seq<Tagg>, name: Seq<char>) -> bool {
    forall|i: int| 0 <= i < entries.len() ==> (#[trigger] entries[i]).0 != name
}

/// What a table holds after `name` is set to `payload`: a new name takes
/// the last place; a name that the table has keeps its place and gets the
/// new payload.
pub open spec fn set_entry(entries: Seq<Tagg>, name: Seq<char>, payload: Seq<u8>) -> Seq<Tagg> {
    if name_absent(entries, name) {
        entries.push((name, payload))
    } else {
        with_payload(entries, name, payload)
    }
}

/// No two entries share a name.
pub open spec fn names_distinct(entries: Seq<Tagg>) -> bool {
    forall|i: int, j: int|
        0 <= i < j < entries.len() ==> (#[trigger] entries[i]).0 != (#[trigger] entries[j]).0
}

/// A table that can be stored and read back: distinct names, none of them
/// the sentinel, none with a zero byte, payloads that fit a 32-bit length.
pub open spec fn taggs_well_formed(entries: Seq<Tagg>) -> bool {
    &&& names_distinct(entries)
    &&& forall|i: int|
        0 <= i < entries.len() ==> {
            &&& (#[trigger] entries[i]).0 != sentinel()
            &&& nul_free(entries[i].0)
            &&& entries[i].1.len() <= u32::MAX
        }
}

/// The payloads of all entries fit a 32-bit length.
pub open spec fn taggs_storable(entries: Seq<Tagg>) -> bool {
    forall|i: int| 0 <= i < entries.len() ==> (#[trigger] entries[i]).1.len() <= u32::MAX
}

/// The bytes of one entry: marker, name, payload length, payload.
pub open spec fn encode_tagg(name: Seq<char>, payload: Seq<u8>) -> Seq<u8> {
    seq![1u8] + cstring_bytes(name) + u32_bytes(payload.len() as u32) + payload
}

/// The bytes of the entries in order, without the closing sentinel entry.
pub open spec fn encode_entries(entries: Seq<Tagg>) -> Seq<u8>
    decreases entries.len(),
{
    if entries.len() == 0 {
        Seq::empty()
    } else {
        encode_tagg(entries[0].0, entries[0].1) + encode_entries(entries.skip(1))
    }
}

/// The bytes of a tag table: its entries, then the sentinel entry with an
/// empty payload.
pub open spec fn encode_taggs(entries: Seq<Tagg>) -> Seq<u8> {
    encode_entries(entries) + encode_tagg(sentinel(), Seq::empty())
}

/// Reads entries from the start of `s` into `acc` until the sentinel entry,
/// which is consumed and not kept. Each entry is a marker byte (discarded), a
/// null-terminated name, a 32-bit payload length and the payload.
pub open spec fn parse_taggs(s: Seq<u8>, acc: Seq<Tagg>) -> Result<(Seq<Tagg>, Seq<u8>), Error>
    decreases s.len(),
{
    let after_marker = if s.len() > 0 {
        s.skip(1)
    } else {
        s
    };
    let name_bytes = cstring_body(after_marker);
    let after_name = cstring_rest(after_marker);
    if !valid_utf8(name_bytes) {
        Err(Error::InvalidUtf8)
    } else if after_name.len() < 4 {
        Err(Error::UnexpectedEof)
    } else {
        let size = u32_at(after_name, 0) as int;
        let after_size = after_name.skip(4);
        if after_size.len() < size {
            Err(Error::UnexpectedEof)
        } else if decode_utf8(name_bytes) == sentinel() {
            Ok((acc, after_size.skip(size)))
        } else if after_size.skip(size).len() < s.len() {
            parse_taggs(
                after_size.skip(size),
                set_entry(acc, decode_utf8(name_bytes), after_size.take(size)),
            )
        } else {
            Err(Error::UnexpectedEof)
        }
    }
}

/// The sentinel name is plain ASCII without a zero byte.
pub proof fn lemma_sentinel_nul_free()
    ensures
        nul_free(sentinel()),
{
    reveal_strlit("#EndOfFile#");
    is_ascii_chars_encode_utf8(sentinel());
}

/// Removing a name that no entry has changes nothing.
pub proof fn lemma_without_absent(entries: Seq<Tagg>, name: Seq<char>)
    requires
        name_absent(entries, name),
    ensures
        without_name(entries, name) == entries,
    decreases entries.len(),
{
    if entries.len() > 0 {
        let front = entries.drop_last();
        assert(entries.last() == entries[entries.len() - 1]);
        assert forall|i: int| 0 <= i < front.len() implies (#[trigger] front[i]).0 != name by {
            assert(front[i] == entries[i]);
        }
        lemma_without_absent(front, name);
        assert(front.push(entries.last()) =~= entries);
    }
}

/// Setting an entry of a well-formed table keeps it well formed.
pub proof fn lemma_set_entry_well_formed(entries: Seq<Tagg>, name: Seq<char>, payload: Seq<u8>)
    requires
        taggs_well_formed(entries),
        name != sentinel(),
        nul_free(name),
        payload.len() <= u32::MAX,
    ensures
        taggs_well_formed(set_entry(entries, name, payload)),
{
    let out = set_entry(entries, name, payload);
    if name_absent(entries, name) {
        assert forall|i: int| 0 <= i < out.len() implies {
            &&& (#[trigger] out[i]).0 != sentinel()
            &&& nul_free(out[i].0)
            &&& out[i].1.len() <= u32::MAX
        } by {
            if i < entries.len() {
                assert(out[i] == entries[i]);
            }
        }
        assert forall|i: int, j: int| 0 <= i < j < out.len() implies (#[trigger] out[i]).0 != (
        #[trigger] out[j]).0 by {
            assert(out[i] == entries[i]);
            if j < entries.len() {
                assert(out[j] == entries[j]);
            }
        }
    } else {
        assert forall|i: int| 0 <= i < out.len() implies {
            &&& (#[trigger] out[i]).0 == entries[i].0
            &&& out[i].0 != sentinel()
            &&& nul_free(out[i].0)
            &&& out[i].1.len() <= u32::MAX
        } by {
            assert(entries[i].0 != sentinel());
        }
        assert forall|i: int, j: int| 0 <= i < j < out.len() implies (#[trigger] out[i]).0 != (
        #[trigger] out[j]).0 by {
            assert(out[i].0 == entries[i].0 && out[j].0 == entries[j].0);
        }
    }
}

/// How a stream that starts with a stored entry splits into name, length and payload.
pub proof fn lemma_entry_layout(name: Seq<char>, payload: Seq<u8>, rest: Seq<u8>)
    requires
        nul_free(name),
        payload.len() <= u32::MAX,
    ensures
        ({
            let s = encode_tagg(name, payload) + rest;
            let after_name = cstring_rest(s.skip(1));
            &&& s.len() > rest.len() + 4
            &&& valid_utf8(cstring_body(s.skip(1)))
            &&& decode_utf8(cstring_body(s.skip(1))) == name
            &&& after_name.len() >= 4
            &&& u32_at(after_name, 0) == payload.len()
            &&& after_name.skip(4).len() >= payload.len()
            &&& after_name.skip(4).take(payload.len() as int) == payload
            &&& after_name.skip(4).skip(payload.len() as int) == rest
        }),
{
    let s = encode_tagg(name, payload) + rest;
    let mark = seq![1u8];
    let size = u32_bytes(payload.len() as u32);
    let after = size + (payload + rest);
    lemma_concat_assoc(mark + cstring_bytes(name) + size, payload, rest);
    lemma_concat_assoc(mark + cstring_bytes(name), size, payload + rest);
    lemma_concat_assoc(mark, cstring_bytes(name), after);
    lemma_skip_none(s);
    lemma_prefix_split(mark, cstring_bytes(name) + after, s, 0);
    lemma_parse_cstring_bytes(name, after);
    lemma_skip_none(after);
    lemma_word_prefix(payload.len() as u32, payload + rest, after, 0);
    let body = after.skip(4);
    lemma_skip_none(body);
    lemma_prefix_split(payload, rest, body, 0);
    assert(body.take(payload.len() as int) =~= body.subrange(0, payload.len() as int));
}

/// Reading a stream that starts with a stored entry: the sentinel ends the
/// table, any other entry is set in the table and reading goes on behind it.
pub proof fn lemma_parse_taggs_step(
    name: Seq<char>,
    payload: Seq<u8>,
    rest: Seq<u8>,
    acc: Seq<Tagg>,
)
    requires
        nul_free(name),
        payload.len() <= u32::MAX,
    ensures
        parse_taggs(encode_tagg(name, payload) + rest, acc) == if name == sentinel() {
            Ok::<(Seq<Tagg>, Seq<u8>), Error>((acc, rest))
        } else {
            parse_taggs(rest, set_entry(acc, name, payload))
        },
{
    lemma_entry_layout(name, payload, rest);
}

/// The entries after the first of a well-formed table are a well-formed
/// table in which the first entry's name does not occur.
pub proof fn lemma_taggs_well_formed_skip(entries: Seq<Tagg>)
    requires
        taggs_well_formed(entries),
        entries.len() > 0,
    ensures
        taggs_well_formed(entries.skip(1)),
        name_absent(entries.skip(1), entries[0].0),
{
    let others = entries.skip(1);
    assert forall|i: int| 0 <= i < others.len() implies {
        &&& (#[trigger] others[i]).0 != sentinel()
        &&& nul_free(others[i].0)
        &&& others[i].1.len() <= u32::MAX
        &&& others[i].0 != entries[0].0
    } by {
        assert(others[i] == entries[i + 1]);
    }
    assert forall|i: int, j: int| 0 <= i < j < others.len() implies (#[trigger] others[i]).0 != (
    #[trigger] others[j]).0 by {
        assert(others[i] == entries[i + 1] && others[j] == entries[j + 1]);
    }
}

/// Reading a stored table gives its entries back in the order in which they
/// were stored, the sentinel excluded, and leaves what followed the table.
pub proof fn lemma_parse_taggs_encode(entries: Seq<Tagg>, tail: Seq<u8>, acc: Seq<Tagg>)
    requires
        taggs_well_formed(entries),
        forall|i: int| 0 <= i < entries.len() ==> name_absent(acc, (#[trigger] entries[i]).0),
    ensures
        parse_taggs(encode_taggs(entries) + tail, acc) == Ok::<(Seq<Tagg>, Seq<u8>), Error>(
            (acc + entries, tail),
        ),
    decreases entries.len(),
{
    let s = encode_taggs(entries) + tail;
    let closing = encode_tagg(sentinel(), Seq::empty());
    if entries.len() == 0 {
        lemma_sentinel_nul_free();
        assert(s =~= closing + tail);
        lemma_parse_taggs_step(sentinel(), Seq::empty(), tail, acc);
        assert(acc + entries =~= acc);
    } else {
        let first = entries[0];
        let others = entries.skip(1);
        let rest = encode_taggs(others) + tail;
        let head = encode_tagg(first.0, first.1);
        assert(s == head + rest) by {
            assert(encode_entries(entries) == head + encode_entries(others));
            assert((head + encode_entries(others) + closing) + tail =~= head + ((encode_entries(
                others,
            ) + closing) + tail));
        }
        lemma_parse_taggs_step(first.0, first.1, rest, acc);
        assert(name_absent(acc, first.0));
        let next = acc.push(first);
        assert(set_entry(acc, first.0, first.1) == next);
        lemma_taggs_well_formed_skip(entries);
        assert forall|i: int| 0 <= i < others.len() implies name_absent(
            next,
            (#[trigger] others[i]).0,
        ) by {
            assert(others[i] == entries[i + 1]);
            assert(name_absent(acc, entries[i + 1].0));
            assert forall|k: int| 0 <= k < next.len() implies (#[trigger] next[k]).0
                != others[i].0 by {
                if k < acc.len() {
                    assert(next[k] == acc[k]);
                }
            }
        }
        lemma_parse_taggs_encode(others, tail, next);
        assert(next + others =~= acc + entries);
    }
}

/// A table read from a stream is well formed.
pub proof fn lemma_parse_taggs_well_formed(s: Seq<u8>, acc: Seq<Tagg>)
    requires
        taggs_well_formed(acc),
    ensures
        parse_taggs(s, acc) matches Ok(p) ==> taggs_well_formed(p.0),
    decreases s.len(),
{
    let after_marker = if s.len() > 0 {
        s.skip(1)
    } else {
        s
    };
    let name_bytes = cstring_body(after_marker);
    let after_name = cstring_rest(after_marker);
    lemma_parse_cstring_nul_free(after_marker);
    if valid_utf8(name_bytes) && after_name.len() >= 4 {
        let size = u32_at(after_name, 0) as int;
        let after_size = after_name.skip(4);
        let name = decode_utf8(name_bytes);
        if after_size.len() >= size && name != sentinel() && after_size.skip(size).len()
            < s.len() {
            lemma_set_entry_well_formed(acc, name, after_size.take(size));
            lemma_parse_taggs_well_formed(
                after_size.skip(size),
                set_entry(acc, name, after_size.take(size)),
            );
        }
    }
}

} // verus!
