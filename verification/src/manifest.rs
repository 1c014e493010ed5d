//! The manifest of persisted neighbour graphs: which graphs there are, over which records.
use vstd::prelude::*;
use vstd::utf8::*;
use crate::ann::{
    fresh_slot, members, rows_named, slot_before, AnnCatalog, AnnIndex, Catalog, SlotId, SlotModel,
};
use crate::codec::{
    agrees, enc_text, end_of_input, le_bytes, lemma_parse_le_roundtrip, lemma_parse_text_roundtrip,
    lemma_pow256_values, parse_le, parse_text, text_fits, too_long, write_le, write_len, write_text,
    Parsed, Reader,
};
use crate::config::ANN_MIN_POINTS;
use crate::error::{invalid, Failure, VectLiteError};
use crate::order::{same_text, Duplicate, Key};
use crate::ordered_map::{
    ascending, has_key, lemma_ascending_determined, lemma_map_of_at, lemma_map_of_take, map_of,
    position_of, OrderedMap,
};
use crate::record::{KeyModel, RecordKey, RecordModel};
use crate::snapshot::Records;
use crate::sort::{law_sorted_order_independent, sort, sorted};
use crate::text::{concat2, concat5};
use crate::wal::{enc_key, parse_key, read_key, write_key};

verus! {

pub const FNV_START: u64 = 0xcbf2_9ce4_8422_2325;

pub const FNV_PRIME: u64 = 0x100_0000_01b3;

/// The hash of bytes that continue bytes with the hash `state`.
pub open spec fn fnv(state: u64, bytes: Seq<u8>) -> u64
    decreases bytes.len(),
{
    if bytes.len() == 0 {
        state
    } else {
        (fnv(state, bytes.drop_last()) ^ (bytes.last() as u64)).wrapping_mul(FNV_PRIME)
    }
}

/// The bytes that a key adds to a signature.
pub open spec fn key_bytes(k: KeyModel) -> Seq<u8> {
    encode_utf8(k.0) + seq![0xffu8] + encode_utf8(k.1) + seq![0xfeu8]
}

/// The bytes that keys add to a signature, one after the other.
pub open spec fn keys_bytes(keys: Seq<KeyModel>) -> Seq<u8>
    decreases keys.len(),
{
    if keys.len() == 0 {
        Seq::empty()
    } else {
        keys_bytes(keys.drop_last()) + key_bytes(keys.last())
    }
}

/// The signature of keys: a hash of the keys in sorted order.
pub open spec fn signature(keys: Seq<KeyModel>) -> u64 {
    fnv(FNV_START, keys_bytes(sorted::<(String, String)>(keys)))
}

/// The signature depends on which keys there are and not on their order.
pub proof fn law_signature_order_independent(a: Seq<KeyModel>, b: Seq<KeyModel>)
    requires
        a.to_multiset() == b.to_multiset(),
    ensures
        signature(a) == signature(b),
{
    law_sorted_order_independent::<(String, String)>(a, b);
}

proof fn lemma_fnv_concat(state: u64, a: Seq<u8>, b: Seq<u8>)
    ensures
        fnv(state, a + b) == fnv(fnv(state, a), b),
    decreases b.len(),
{
    if b.len() == 0 {
        assert(a + b =~= a);
    } else {
        assert((a + b).drop_last() =~= a + b.drop_last());
        lemma_fnv_concat(state, a, b.drop_last());
    }
}

fn hash_bytes(state: u64, bytes: &[u8]) -> (r: u64)
    ensures
        r == fnv(state, bytes@),
{
    let mut s: u64 = state;
    let mut i: usize = 0;
    proof {
        assert(bytes@.take(0) =~= Seq::empty());
    }
    while i < bytes.len()
        invariant
            i <= bytes@.len(),
            s == fnv(state, bytes@.take(i as int)),
        decreases bytes@.len() - i,
    {
        proof {
            assert(bytes@.take(i + 1).drop_last() =~= bytes@.take(i as int));
        }
        s = (s ^ (bytes[i] as u64)).wrapping_mul(FNV_PRIME);
        i += 1;
    }
    proof {
        assert(bytes@.take(i as int) =~= bytes@);
    }
    s
}

fn hash_byte(state: u64, byte: u8) -> (r: u64)
    ensures
        r == fnv(state, seq![byte]),
{
    proof {
        assert(seq![byte].drop_last() =~= Seq::<u8>::empty());
        reveal_with_fuel(fnv, 2);
    }
    (state ^ (byte as u64)).wrapping_mul(FNV_PRIME)
}

/// The signature of keys.
pub fn record_key_signature(keys: &Vec<RecordKey>) -> (r: u64)
    ensures
        r == signature(keys.deep_view()),
{
    let in_order = sort(keys.duplicate());
    let ghost all = in_order.deep_view();
    let mut state: u64 = FNV_START;
    let mut i: usize = 0;
    proof {
        assert(all.take(0) =~= Seq::empty());
        assert(keys_bytes(all.take(0)) =~= Seq::empty());
    }
    while i < in_order.len()
        invariant
            i <= in_order@.len(),
            all == in_order.deep_view(),
            state == fnv(FNV_START, keys_bytes(all.take(i as int))),
        decreases in_order@.len() - i,
    {
        let key = &in_order[i];
        let ghost before = keys_bytes(all.take(i as int));
        let ghost a = encode_utf8(key.0@);
        let ghost b = encode_utf8(key.1@);
        state = hash_bytes(state, key.0.as_str().as_bytes());
        state = hash_byte(state, 0xff);
        state = hash_bytes(state, key.1.as_str().as_bytes());
        state = hash_byte(state, 0xfe);
        proof {
            assert(all.take(i + 1).drop_last() =~= all.take(i as int));
            assert(all.take(i + 1).last() == key.deep_view());
            lemma_fnv_concat(FNV_START, before, a);
            lemma_fnv_concat(FNV_START, before + a, seq![0xffu8]);
            lemma_fnv_concat(FNV_START, before + a + seq![0xffu8], b);
            lemma_fnv_concat(FNV_START, before + a + seq![0xffu8] + b, seq![0xfeu8]);
            assert(before + a + seq![0xffu8] + b + seq![0xfeu8] =~= before + key_bytes(
                key.deep_view(),
            ));
        }
        i += 1;
    }
    proof {
        assert(all.take(i as int) =~= all);
    }
    state
}

/// The lower-case hexadecimal digit of a number below sixteen.
pub open spec fn hex_char(d: nat) -> char {
    if d < 10 {
        crate::text::digit_char(d)
    } else if d == 10 {
        'a'
    } else if d == 11 {
        'b'
    } else if d == 12 {
        'c'
    } else if d == 13 {
        'd'
    } else if d == 14 {
        'e'
    } else {
        'f'
    }
}

/// Two hexadecimal digits for each byte.
pub open spec fn hex(bytes: Seq<u8>) -> Seq<char>
    decreases bytes.len(),
{
    if bytes.len() == 0 {
        Seq::empty()
    } else {
        hex(bytes.drop_last()) + seq![
            hex_char((bytes.last() / 16) as nat),
            hex_char((bytes.last() % 16) as nat),
        ]
    }
}

fn hex_digit(d: u8) -> (r: &'static str)
    requires
        d < 16,
    ensures
        r@ == seq![hex_char(d as nat)],
{
    proof {
        reveal_strlit("0");
        reveal_strlit("1");
        reveal_strlit("2");
        reveal_strlit("3");
        reveal_strlit("4");
        reveal_strlit("5");
        reveal_strlit("6");
        reveal_strlit("7");
        reveal_strlit("8");
        reveal_strlit("9");
        reveal_strlit("a");
        reveal_strlit("b");
        reveal_strlit("c");
        reveal_strlit("d");
        reveal_strlit("e");
        reveal_strlit("f");
    }
    let r = match d {
        0 => "0",
        1 => "1",
        2 => "2",
        3 => "3",
        4 => "4",
        5 => "5",
        6 => "6",
        7 => "7",
        8 => "8",
        9 => "9",
        10 => "a",
        11 => "b",
        12 => "c",
        13 => "d",
        14 => "e",
        _ => "f",
    };
    proof {
        assert(r@ =~= seq![hex_char(d as nat)]);
    }
    r
}

/// Writes bytes as hexadecimal digits.
pub fn hex_encode(bytes: &[u8]) -> (r: String)
    ensures
        r@ == hex(bytes@),
{
    let mut out = String::new();
    let mut i: usize = 0;
    proof {
        assert(bytes@.take(0) =~= Seq::empty());
    }
    while i < bytes.len()
        invariant
            i <= bytes@.len(),
            out@ == hex(bytes@.take(i as int)),
        decreases bytes@.len() - i,
    {
        let ghost before = out@;
        let b: u8 = bytes[i];
        out = concat2(out.as_str(), hex_digit(b / 16));
        out = concat2(out.as_str(), hex_digit(b % 16));
        proof {
            assert(bytes@.take(i + 1).drop_last() =~= bytes@.take(i as int));
            assert(out@ =~= hex(bytes@.take(i + 1)));
        }
        i += 1;
    }
    proof {
        assert(bytes@.take(i as int) =~= bytes@);
    }
    out
}

/// The part of a file name that stands for a text: its bytes in hexadecimal, or `empty` for the
/// empty text.
pub open spec fn name_part(s: Seq<char>, empty: Seq<char>) -> Seq<char> {
    if s.len() == 0 {
        empty
    } else {
        hex(encode_utf8(s))
    }
}

/// The part of a file name that stands for a namespace, or for all of them.
pub open spec fn namespace_part(namespace: Option<Seq<char>>) -> Seq<char> {
    match namespace {
        Some(n) => name_part(n, "default"@),
        None => "_"@,
    }
}

/// The base name of the files of a slot's graph.
pub open spec fn graph_basename(
    stem: Seq<char>,
    namespace: Option<Seq<char>>,
    vector_name: Seq<char>,
) -> Seq<char> {
    stem + ".ann."@ + namespace_part(namespace) + "."@ + name_part(vector_name, "_"@)
}

fn file_part(s: &str, empty: &str) -> (r: String)
    ensures
        r@ == name_part(s@, empty@),
{
    if s.is_empty() {
        empty.to_owned()
    } else {
        hex_encode(s.as_bytes())
    }
}

/// The base name of the files of a slot's graph.
pub fn ann_basename(stem: &str, namespace: Option<&str>, vector_name: &str) -> (r: String)
    ensures
        r@ == graph_basename(stem@, crate::payload_index::opt_text(namespace), vector_name@),
{
    let ns = match namespace {
        Some(n) => file_part(n, "default"),
        None => "_".to_owned(),
    };
    let vn = file_part(vector_name, "_");
    concat5(stem, ".ann.", ns.as_str(), ".", vn.as_str())
}

proof fn lemma_hex_chars(bytes: Seq<u8>)
    ensures
        hex(bytes).len() == 2 * bytes.len(),
        forall|i: int|
            0 <= i < hex(bytes).len() ==> {
                let c = #[trigger] hex(bytes)[i];
                '0' <= c <= '9' || 'a' <= c <= 'f'
            },
    decreases bytes.len(),
{
    if bytes.len() > 0 {
        lemma_hex_chars(bytes.drop_last());
    }
}

proof fn lemma_hex_injective(a: Seq<u8>, b: Seq<u8>)
    requires
        hex(a) == hex(b),
    ensures
        a == b,
    decreases a.len(),
{
    lemma_hex_chars(a);
    lemma_hex_chars(b);
    if a.len() > 0 {
        let h = hex(a);
        let n = h.len() as int;
        assert(hex(a.drop_last()) =~= h.take(n - 2));
        assert(hex(b.drop_last()) =~= h.take(n - 2));
        lemma_hex_injective(a.drop_last(), b.drop_last());
        assert(h[n - 2] == hex_char(a.last() as nat / 16));
        assert(h[n - 1] == hex_char(a.last() as nat % 16));
        assert(h[n - 2] == hex_char(b.last() as nat / 16));
        assert(h[n - 1] == hex_char(b.last() as nat % 16));
        assert(a.last() == b.last());
        assert(a =~= a.drop_last().push(a.last()));
        assert(b =~= b.drop_last().push(b.last()));
    } else {
        assert(a =~= b);
    }
}

proof fn lemma_text_bytes(s: Seq<char>)
    ensures
        s.len() > 0 ==> encode_utf8(s).len() > 0,
{
    if s.len() > 0 && encode_utf8(s).len() == 0 {
        encode_utf8_decode_utf8(s);
        encode_utf8_decode_utf8(Seq::empty());
        assert(encode_utf8(s) =~= encode_utf8(Seq::empty()));
    }
}

/// The part of a text names it, and no dot is in it.
proof fn lemma_name_part(s: Seq<char>, t: Seq<char>, empty: Seq<char>)
    requires
        empty == "_"@ || empty == "default"@,
    ensures
        !name_part(s, empty).contains('.'),
        name_part(s, empty) == name_part(t, empty) ==> s == t,
        s.len() > 0 ==> name_part(s, empty) != "_"@,
        empty == "default"@ ==> name_part(s, empty) != "_"@,
{
    reveal_strlit("_");
    reveal_strlit("default");
    lemma_hex_chars(encode_utf8(s));
    lemma_hex_chars(encode_utf8(t));
    lemma_text_bytes(s);
    lemma_text_bytes(t);
    assert("_"@[0] == '_');
    assert("default"@[4] == 'u');
    if name_part(s, empty) == name_part(t, empty) {
        if s.len() > 0 && t.len() > 0 {
            lemma_hex_injective(encode_utf8(s), encode_utf8(t));
            encode_utf8_decode_utf8(s);
            encode_utf8_decode_utf8(t);
        } else if s.len() > 0 {
            let p = hex(encode_utf8(s));
            assert(p == empty);
            assert(p[0] == empty[0]);
            assert(empty == "default"@ ==> p[4] == 'u');
        } else if t.len() > 0 {
            let p = hex(encode_utf8(t));
            assert(p == empty);
            assert(p[0] == empty[0]);
            assert(empty == "default"@ ==> p[4] == 'u');
        } else {
            assert(s =~= t);
        }
    }
    if s.len() > 0 && name_part(s, empty) == "_"@ {
        assert(hex(encode_utf8(s))[0] == '_');
    }
}

proof fn lemma_dotted(a: Seq<char>, b: Seq<char>, c: Seq<char>, d: Seq<char>)
    requires
        a + "."@ + b == c + "."@ + d,
        !a.contains('.'),
        !c.contains('.'),
    ensures
        a == c,
        b == d,
{
    reveal_strlit(".");
    let x = a + "."@ + b;
    let y = c + "."@ + d;
    assert(x[a.len() as int] == '.');
    assert(y[c.len() as int] == '.');
    if a.len() < c.len() {
        assert(y[a.len() as int] == c[a.len() as int]);
    } else if c.len() < a.len() {
        assert(x[c.len() as int] == a[c.len() as int]);
    }
    assert(x.take(a.len() as int) =~= a);
    assert(y.take(c.len() as int) =~= c);
    assert(x.skip(a.len() as int + 1) =~= b);
    assert(y.skip(c.len() as int + 1) =~= d);
}

/// Each graph of a database has files of its own: different slots have different base names.
pub proof fn law_basenames_apart(stem: Seq<char>, a: SlotId, b: SlotId)
    requires
        a != b,
    ensures
        graph_basename(stem, a.0, a.1) != graph_basename(stem, b.0, b.1),
{
    if graph_basename(stem, a.0, a.1) == graph_basename(stem, b.0, b.1) {
        reveal_strlit("_");
        let n = (stem + ".ann."@).len() as int;
        let x = namespace_part(a.0) + "."@ + name_part(a.1, "_"@);
        let y = namespace_part(b.0) + "."@ + name_part(b.1, "_"@);
        assert(graph_basename(stem, a.0, a.1).skip(n) =~= x);
        assert(graph_basename(stem, b.0, b.1).skip(n) =~= y);
        assert(!"_"@.contains('.'));
        let s = match a.0 {
            Some(s) => s,
            None => Seq::empty(),
        };
        let t = match b.0 {
            Some(t) => t,
            None => Seq::empty(),
        };
        lemma_name_part(s, t, "default"@);
        lemma_name_part(t, s, "default"@);
        lemma_dotted(
            namespace_part(a.0),
            name_part(a.1, "_"@),
            namespace_part(b.0),
            name_part(b.1, "_"@),
        );
        lemma_name_part(a.1, b.1, "_"@);
        assert(a.0 == b.0);
        assert(a == b);
    }
}

/// A graph in the manifest.
pub struct AnnManifestEntry {
    pub namespace: Option<String>,
    pub vector_name: String,
    pub record_count: usize,
    pub key_signature: u64,
    pub keys: Vec<(String, String)>,
}

/// The mathematical value of a manifest entry.
#[verifier::ext_equal]
pub struct EntryModel {
    pub slot: SlotId,
    pub record_count: nat,
    pub key_signature: u64,
    pub keys: Seq<KeyModel>,
}

impl DeepView for AnnManifestEntry {
    type V = EntryModel;

    open spec fn deep_view(&self) -> EntryModel {
        EntryModel {
            slot: (self.namespace.deep_view(), self.vector_name@),
            record_count: self.record_count as nat,
            key_signature: self.key_signature,
            keys: self.keys.deep_view(),
        }
    }
}

/// The entry of a graph over `keys`.
pub open spec fn entry_for(slot: SlotId, keys: Seq<KeyModel>) -> EntryModel {
    EntryModel { slot, record_count: keys.len(), key_signature: signature(keys), keys }
}

fn make_entry(slot: &(Option<String>, String), keys: &Vec<RecordKey>) -> (r: AnnManifestEntry)
    ensures
        r.deep_view() == entry_for(slot.deep_view(), keys.deep_view()),
{
    let copy = slot.duplicate();
    AnnManifestEntry {
        namespace: copy.0,
        vector_name: copy.1,
        record_count: keys.len(),
        key_signature: record_key_signature(keys),
        keys: keys.duplicate(),
    }
}

/// The entries of the graphs that have enough ids, in slot order.
pub open spec fn actual_entries(graphs: Seq<(SlotId, SlotModel)>) -> Seq<EntryModel>
    decreases graphs.len(),
{
    if graphs.len() == 0 {
        Seq::empty()
    } else {
        let before = actual_entries(graphs.drop_last());
        let (slot, s) = graphs.last();
        if s.keys.len() < ANN_MIN_POINTS {
            before
        } else {
            before.push(entry_for(slot, s.keys))
        }
    }
}

impl AnnCatalog {
    /// The entries of the graphs as they are.
    pub fn actual_ann_entries(&self) -> (r: Vec<AnnManifestEntry>)
        ensures
            r.deep_view() == actual_entries(self.entries()),
    {
        let ghost graphs = self.entries();
        let mut out: Vec<AnnManifestEntry> = Vec::new();
        let mut i: usize = 0;
        proof {
            assert(graphs.take(0) =~= Seq::empty());
            assert(out.deep_view() =~= Seq::<EntryModel>::empty());
        }
        while i < self.slots.len()
            invariant
                i <= graphs.len(),
                graphs == self.slots.pairs(),
                out.deep_view() == actual_entries(graphs.take(i as int)),
            decreases graphs.len() - i,
        {
            let index = self.slots.value_at(i);
            let ghost before = out.deep_view();
            proof {
                assert(graphs.take(i + 1).drop_last() =~= graphs.take(i as int));
                assert(graphs.take(i + 1).last() == graphs[i as int]);
            }
            if index.keys.len() >= ANN_MIN_POINTS {
                let e = make_entry(self.slots.key_at(i), &index.keys);
                out.push(e);
                proof {
                    assert(out.deep_view() =~= before.push(e.deep_view()));
                }
            }
            i += 1;
        }
        proof {
            assert(graphs.take(i as int) =~= graphs);
        }
        out
    }
}

/// The entries of the graphs that a rebuild would make: in slot order, one for every slot with
/// enough members.
pub open spec fn entries_expected(
    entries: Seq<EntryModel>,
    rows: Seq<(KeyModel, RecordModel)>,
) -> bool {
    &&& forall|i: int, j: int|
        #![trigger entries[i], entries[j]]
        0 <= i < j < entries.len() ==> slot_before(entries[i].slot, entries[j].slot)
    &&& forall|i: int|
        0 <= i < entries.len() ==> (#[trigger] entries[i]) == entry_for(
            entries[i].slot,
            members(rows, entries[i].slot),
        ) && members(rows, entries[i].slot).len() >= ANN_MIN_POINTS
    &&& forall|s: SlotId|
        (#[trigger] members(rows, s)).len() >= ANN_MIN_POINTS ==> exists|i: int|
            0 <= i < entries.len() && (#[trigger] entries[i]).slot == s
}

/// The entries of groups of keys that have enough keys.
pub open spec fn group_entries(gs: Seq<(SlotId, Seq<KeyModel>)>) -> Seq<EntryModel>
    decreases gs.len(),
{
    if gs.len() == 0 {
        Seq::empty()
    } else {
        let before = group_entries(gs.drop_last());
        let (slot, keys) = gs.last();
        if keys.len() < ANN_MIN_POINTS {
            before
        } else {
            before.push(entry_for(slot, keys))
        }
    }
}

spec fn entry_from(e: EntryModel, gs: Seq<(SlotId, Seq<KeyModel>)>, q: int) -> bool {
    &&& 0 <= q < gs.len()
    &&& e == entry_for(gs[q].0, gs[q].1)
    &&& gs[q].1.len() >= ANN_MIN_POINTS
}

/// Where an entry comes from.
proof fn lemma_entry_source(gs: Seq<(SlotId, Seq<KeyModel>)>, a: int) -> (q: int)
    requires
        0 <= a < group_entries(gs).len(),
    ensures
        entry_from(group_entries(gs)[a], gs, q),
    decreases gs.len(),
{
    let before = group_entries(gs.drop_last());
    if a < before.len() {
        lemma_entry_source(gs.drop_last(), a)
    } else {
        gs.len() - 1
    }
}

/// Every group with enough keys has its entry.
proof fn lemma_entry_of_group(gs: Seq<(SlotId, Seq<KeyModel>)>, q: int) -> (a: int)
    requires
        0 <= q < gs.len(),
        gs[q].1.len() >= ANN_MIN_POINTS,
    ensures
        0 <= a < group_entries(gs).len(),
        group_entries(gs)[a].slot == gs[q].0,
    decreases gs.len(),
{
    if q < gs.len() - 1 {
        lemma_entry_of_group(gs.drop_last(), q)
    } else {
        group_entries(gs).len() - 1
    }
}

/// The entries of groups in order are in order.
proof fn lemma_entries_in_order(gs: Seq<(SlotId, Seq<KeyModel>)>)
    requires
        ascending::<(Option<String>, String), Seq<KeyModel>>(gs),
    ensures
        forall|i: int, j: int|
            #![trigger group_entries(gs)[i], group_entries(gs)[j]]
            0 <= i < j < group_entries(gs).len() ==> slot_before(
                group_entries(gs)[i].slot,
                group_entries(gs)[j].slot,
            ),
    decreases gs.len(),
{
    if gs.len() > 0 {
        let entries = group_entries(gs);
        let before = group_entries(gs.drop_last());
        assert forall|i: int, j: int|
            0 <= i < j < gs.drop_last().len() implies <(Option<String>, String) as Key>::before(
            (#[trigger] gs.drop_last()[i]).0,
            (#[trigger] gs.drop_last()[j]).0,
        ) by {
            lemma_rows_ordered(gs, i, j);
        }
        lemma_entries_in_order(gs.drop_last());
        assert forall|i: int, j: int|
            #![trigger entries[i], entries[j]]
            0 <= i < j < entries.len() implies slot_before(entries[i].slot, entries[j].slot) by {
            if j < before.len() {
                assert(entries[i] == before[i] && entries[j] == before[j]);
            } else {
                let q = lemma_entry_source(gs.drop_last(), i);
                lemma_rows_ordered(gs, q, gs.len() - 1);
            }
        }
    }
}

proof fn lemma_rows_ordered(gs: Seq<(SlotId, Seq<KeyModel>)>, i: int, j: int)
    requires
        ascending::<(Option<String>, String), Seq<KeyModel>>(gs),
        0 <= i < j < gs.len(),
    ensures
        <(Option<String>, String) as Key>::before(gs[i].0, gs[j].0),
        slot_before(gs[i].0, gs[j].0),
{
    assert(<(Option<String>, String) as Key>::before(gs[i].0, gs[j].0) == slot_before(
        gs[i].0,
        gs[j].0,
    ));
}

/// The entries of the groups of the records are the expected ones.
proof fn lemma_entries_expected(
    gs: Seq<(SlotId, Seq<KeyModel>)>,
    rows: Seq<(KeyModel, RecordModel)>,
)
    requires
        ascending::<(Option<String>, String), Seq<KeyModel>>(gs),
        forall|s: SlotId| #[trigger]
            crate::ann::group_of(map_of(gs), s) == members(rows, s),
    ensures
        entries_expected(group_entries(gs), rows),
{
    let entries = group_entries(gs);
    lemma_entries_in_order(gs);
    assert forall|a: int| 0 <= a < entries.len() implies (#[trigger] entries[a]) == entry_for(
        entries[a].slot,
        members(rows, entries[a].slot),
    ) && members(rows, entries[a].slot).len() >= ANN_MIN_POINTS by {
        let q = lemma_entry_source(gs, a);
        lemma_map_of_at::<(Option<String>, String), Seq<KeyModel>>(gs, q);
        assert(crate::ann::group_of(map_of(gs), gs[q].0) == members(rows, gs[q].0));
    }
    assert forall|s: SlotId| (#[trigger] members(rows, s)).len() >= ANN_MIN_POINTS implies exists|
        a: int,
    |
        0 <= a < entries.len() && (#[trigger] entries[a]).slot == s by {
        assert(crate::ann::group_of(map_of(gs), s) == members(rows, s));
        assert(has_key(gs, s));
        let q = position_of(gs, s);
        lemma_map_of_at::<(Option<String>, String), Seq<KeyModel>>(gs, q);
        let a = lemma_entry_of_group(gs, q);
        assert(entries[a].slot == s);
    }
}

/// The entries of the graphs that a rebuild would make.
pub fn expected_ann_entries(records: &Records) -> (r: Vec<AnnManifestEntry>)
    requires
        rows_named(records.pairs()),
    ensures
        entries_expected(r.deep_view(), records.pairs()),
{
    let groups = crate::ann::group_rows(records);
    let ghost gs = groups.pairs();
    let mut out: Vec<AnnManifestEntry> = Vec::new();
    let mut i: usize = 0;
    proof {
        assert(gs.take(0) =~= Seq::empty());
        assert(out.deep_view() =~= Seq::<EntryModel>::empty());
    }
    while i < groups.len()
        invariant
            i <= gs.len(),
            gs == groups.pairs(),
            out.deep_view() == group_entries(gs.take(i as int)),
        decreases gs.len() - i,
    {
        let keys = groups.value_at(i);
        let ghost before = out.deep_view();
        proof {
            assert(gs.take(i + 1).drop_last() =~= gs.take(i as int));
            assert(gs.take(i + 1).last() == gs[i as int]);
        }
        if keys.len() >= ANN_MIN_POINTS {
            let e = make_entry(groups.key_at(i), keys);
            out.push(e);
            proof {
                assert(out.deep_view() =~= before.push(e.deep_view()));
            }
        }
        i += 1;
    }
    proof {
        assert(gs.take(i as int) =~= gs);
        use_type_invariant(&groups);
        groups.lemma_pairs_ascending();
        lemma_entries_expected(gs, records.pairs());
    }
    out
}

/// The error for a number that no size can hold.
pub open spec fn no_size() -> Failure {
    Failure::InvalidFormat("u64 value cannot fit into usize on this platform"@)
}

/// Reads a size of eight bytes.
pub open spec fn parse_size(b: Seq<u8>) -> Parsed<nat> {
    match parse_le(b, 8) {
        Err(e) => Err(e),
        Ok((v, rest)) => if v > usize::MAX {
            Err(no_size())
        } else {
            Ok((v, rest))
        },
    }
}

fn read_size(reader: &mut Reader) -> (r: Result<usize, VectLiteError>)
    requires
        old(reader).wf(),
    ensures
        final(reader).wf(),
        match parse_size(old(reader).rest()) {
            Ok((v, tail)) => r matches Ok(x) && x == v && final(reader).rest() == tail,
            Err(e) => r matches Err(x) && x@ == e,
        },
{
    match reader.u64() {
        Ok(v) => if v > usize::MAX as u64 {
            Err(invalid("u64 value cannot fit into usize on this platform"))
        } else {
            Ok(v as usize)
        },
        Err(e) => Err(e),
    }
}

/// The bytes of a namespace that may be missing.
pub open spec fn enc_scope(namespace: Option<Seq<char>>) -> Seq<u8> {
    match namespace {
        Some(ns) => seq![1u8] + enc_text(ns),
        None => seq![0u8],
    }
}

/// Reads a namespace that may be missing.
pub open spec fn parse_scope(b: Seq<u8>) -> Parsed<Option<Seq<char>>> {
    match parse_le(b, 1) {
        Err(e) => Err(e),
        Ok((flag, b1)) => if flag == 0 {
            Ok((None, b1))
        } else {
            match parse_text(b1) {
                Err(e) => Err(e),
                Ok((ns, rest)) => Ok((Some(ns), rest)),
            }
        },
    }
}

/// The bytes of keys, one after the other.
pub open spec fn enc_keys(keys: Seq<KeyModel>) -> Seq<u8>
    decreases keys.len(),
{
    if keys.len() == 0 {
        Seq::empty()
    } else {
        enc_key(keys[0]) + enc_keys(keys.drop_first())
    }
}

/// Reads `n` more keys behind `acc`.
pub open spec fn parse_keys(n: nat, acc: Seq<KeyModel>, b: Seq<u8>) -> Parsed<Seq<KeyModel>>
    decreases n,
{
    if n == 0 {
        Ok((acc, b))
    } else {
        match parse_key(b) {
            Err(e) => Err(e),
            Ok((k, rest)) => parse_keys((n - 1) as nat, acc.push(k), rest),
        }
    }
}

/// The bytes of an entry's slot.
pub open spec fn enc_slot(s: SlotId) -> Seq<u8> {
    enc_scope(s.0) + enc_text(s.1)
}

/// Reads a slot.
pub open spec fn parse_slot(b: Seq<u8>) -> Parsed<SlotId> {
    match parse_scope(b) {
        Err(e) => Err(e),
        Ok((ns, b1)) => match parse_text(b1) {
            Err(e) => Err(e),
            Ok((name, rest)) => Ok(((ns, name), rest)),
        },
    }
}

/// The bytes of counted keys.
pub open spec fn enc_key_list(keys: Seq<KeyModel>) -> Seq<u8> {
    le_bytes(keys.len(), 8) + enc_keys(keys)
}

/// Reads counted keys. The first layout has none.
pub open spec fn parse_key_list(version: nat, b: Seq<u8>) -> Parsed<Seq<KeyModel>> {
    if version >= 2 {
        match parse_size(b) {
            Err(e) => Err(e),
            Ok((n, rest)) => parse_keys(n, Seq::empty(), rest),
        }
    } else {
        Ok((Seq::empty(), b))
    }
}

/// The bytes of an entry.
#[verifier::opaque]
pub open spec fn enc_entry(e: EntryModel) -> Seq<u8> {
    enc_slot(e.slot) + (le_bytes(e.record_count, 8) + (le_bytes(e.key_signature as nat, 8)
        + enc_key_list(e.keys)))
}

/// Reads an entry.
#[verifier::opaque]
pub open spec fn parse_entry(version: nat, b: Seq<u8>) -> Parsed<EntryModel> {
    match parse_slot(b) {
        Err(e) => Err(e),
        Ok((slot, b1)) => match parse_size(b1) {
            Err(e) => Err(e),
            Ok((record_count, b2)) => match parse_le(b2, 8) {
                Err(e) => Err(e),
                Ok((sig, b3)) => match parse_key_list(version, b3) {
                    Err(e) => Err(e),
                    Ok((keys, rest)) => Ok(
                        (
                            EntryModel { slot, record_count, key_signature: sig as u64, keys },
                            rest,
                        ),
                    ),
                },
            },
        },
    }
}

/// Whether every text of a key fits its length field.
pub open spec fn key_fits(k: KeyModel) -> bool {
    text_fits(k.0) && text_fits(k.1)
}

/// Whether every text of an entry fits its length field.
#[verifier::opaque]
pub open spec fn entry_fits(e: EntryModel) -> bool {
    &&& e.slot.0 matches Some(ns) ==> text_fits(ns)
    &&& text_fits(e.slot.1)
    &&& forall|i: int| 0 <= i < e.keys.len() ==> key_fits(#[trigger] e.keys[i])
}

/// Whether the numbers of an entry are sizes of this machine.
pub open spec fn entry_sized(e: EntryModel) -> bool {
    e.record_count <= usize::MAX && e.keys.len() <= usize::MAX
}

/// The bytes of entries, one after the other.
pub open spec fn enc_entries(entries: Seq<EntryModel>) -> Seq<u8>
    decreases entries.len(),
{
    if entries.len() == 0 {
        Seq::empty()
    } else {
        enc_entry(entries[0]) + enc_entries(entries.drop_first())
    }
}

/// Reads `n` more entries behind `acc`.
pub open spec fn parse_entries(
    version: nat,
    n: nat,
    acc: Seq<EntryModel>,
    b: Seq<u8>,
) -> Parsed<Seq<EntryModel>>
    decreases n,
{
    if n == 0 {
        Ok((acc, b))
    } else {
        match parse_entry(version, b) {
            Err(e) => Err(e),
            Ok((e, rest)) => parse_entries(version, (n - 1) as nat, acc.push(e), rest),
        }
    }
}

/// The first bytes of a manifest of layout two.
pub open spec fn manifest_magic() -> Seq<u8> {
    seq![65u8, 78, 78, 50]
}

/// The first bytes of a manifest of layout one.
pub open spec fn old_manifest_magic() -> Seq<u8> {
    seq![65u8, 78, 78, 49]
}

/// The bytes of a manifest.
pub open spec fn enc_manifest(entries: Seq<EntryModel>) -> Seq<u8> {
    manifest_magic() + (le_bytes(entries.len(), 4) + enc_entries(entries))
}

/// Whether a manifest can be written.
pub open spec fn manifest_fits(entries: Seq<EntryModel>) -> bool {
    &&& entries.len() <= u32::MAX
    &&& forall|i: int| 0 <= i < entries.len() ==> entry_fits(#[trigger] entries[i])
}

/// Reads what follows the first four bytes.
pub open spec fn parse_manifest_body(version: nat, b: Seq<u8>) -> Result<
    Seq<EntryModel>,
    Failure,
> {
    match parse_le(b, 4) {
        Err(e) => Err(e),
        Ok((n, rest)) => match parse_entries(version, n, Seq::empty(), rest) {
            Err(e) => Err(e),
            Ok((entries, _)) => Ok(entries),
        },
    }
}

/// Reads a manifest. Bytes behind its last entry are ignored.
pub open spec fn parse_manifest(b: Seq<u8>) -> Result<Seq<EntryModel>, Failure> {
    if b.len() < 4 {
        Err(end_of_input())
    } else if b.take(4) == old_manifest_magic() {
        parse_manifest_body(1, b.skip(4))
    } else if b.take(4) == manifest_magic() {
        parse_manifest_body(2, b.skip(4))
    } else {
        Err(Failure::InvalidFormat("invalid ANN manifest"@))
    }
}

proof fn lemma_size_roundtrip(v: nat, tail: Seq<u8>)
    requires
        v <= usize::MAX,
    ensures
        parse_size(le_bytes(v, 8) + tail) == Ok::<(nat, Seq<u8>), Failure>((v, tail)),
{
    lemma_pow256_values();
    lemma_parse_le_roundtrip(v, 8, tail);
}

proof fn lemma_slot_roundtrip(s: SlotId, tail: Seq<u8>)
    requires
        s.0 matches Some(ns) ==> text_fits(ns),
        text_fits(s.1),
    ensures
        parse_slot(enc_slot(s) + tail) == Ok::<(SlotId, Seq<u8>), Failure>((s, tail)),
{
    let end = enc_text(s.1) + tail;
    assert(enc_slot(s) + tail =~= enc_scope(s.0) + end);
    lemma_parse_text_roundtrip(s.1, tail);
    match s.0 {
        Some(ns) => {
            assert(enc_scope(s.0) + end =~= seq![1u8] + (enc_text(ns) + end));
            crate::wal::lemma_tag(1u8, enc_text(ns) + end);
            lemma_parse_text_roundtrip(ns, end);
        },
        None => {
            crate::wal::lemma_tag(0u8, end);
        },
    }
}

proof fn lemma_keys_step(n: nat, acc: Seq<KeyModel>, b: Seq<u8>, k: KeyModel, rest: Seq<u8>)
    requires
        n > 0,
        parse_key(b) == Ok::<(KeyModel, Seq<u8>), Failure>((k, rest)),
    ensures
        parse_keys(n, acc, b) == parse_keys((n - 1) as nat, acc.push(k), rest),
{
}

proof fn lemma_keys_bytes(keys: Seq<KeyModel>, tail: Seq<u8>)
    requires
        keys.len() > 0,
    ensures
        enc_keys(keys) + tail == enc_key(keys[0]) + (enc_keys(keys.drop_first()) + tail),
{
    assert(enc_keys(keys) + tail =~= enc_key(keys[0]) + (enc_keys(keys.drop_first()) + tail));
}

proof fn lemma_keys_roundtrip(keys: Seq<KeyModel>, acc: Seq<KeyModel>, tail: Seq<u8>)
    requires
        forall|i: int| 0 <= i < keys.len() ==> key_fits(#[trigger] keys[i]),
    ensures
        parse_keys(keys.len(), acc, enc_keys(keys) + tail) == Ok::<
            (Seq<KeyModel>, Seq<u8>),
            Failure,
        >((acc + keys, tail)),
    decreases keys.len(),
{
    if keys.len() == 0 {
        assert(enc_keys(keys) + tail =~= tail);
        assert(acc + keys =~= acc);
    } else {
        let more = keys.drop_first();
        let end = enc_keys(more) + tail;
        lemma_keys_bytes(keys, tail);
        assert(key_fits(keys[0]));
        crate::wal::lemma_key_roundtrip(keys[0], end);
        lemma_keys_step(keys.len(), acc, enc_key(keys[0]) + end, keys[0], end);
        assert forall|i: int| 0 <= i < more.len() implies key_fits(#[trigger] more[i]) by {
            assert(more[i] == keys[i + 1]);
        }
        lemma_keys_roundtrip(more, acc.push(keys[0]), tail);
        assert(acc.push(keys[0]) + more =~= acc + keys);
    }
}

proof fn lemma_entry_roundtrip(e: EntryModel, tail: Seq<u8>)
    requires
        entry_fits(e),
        entry_sized(e),
    ensures
        parse_entry(2, enc_entry(e) + tail) == Ok::<(EntryModel, Seq<u8>), Failure>((e, tail)),
{
    reveal(enc_entry);
    reveal(parse_entry);
    reveal(entry_fits);
    let t3 = enc_keys(e.keys) + tail;
    let t2 = le_bytes(e.keys.len(), 8) + t3;
    let t1 = le_bytes(e.key_signature as nat, 8) + t2;
    let t0 = le_bytes(e.record_count, 8) + t1;
    assert(enc_entry(e) + tail =~= enc_slot(e.slot) + t0);
    lemma_slot_roundtrip(e.slot, t0);
    lemma_size_roundtrip(e.record_count, t1);
    lemma_pow256_values();
    lemma_parse_le_roundtrip(e.key_signature as nat, 8, t2);
    lemma_size_roundtrip(e.keys.len(), t3);
    lemma_keys_roundtrip(e.keys, Seq::empty(), tail);
    assert(Seq::<KeyModel>::empty() + e.keys =~= e.keys);
}

proof fn lemma_entries_roundtrip(
    entries: Seq<EntryModel>,
    acc: Seq<EntryModel>,
    tail: Seq<u8>,
)
    requires
        forall|i: int|
            0 <= i < entries.len() ==> entry_fits(#[trigger] entries[i]) && entry_sized(entries[i]),
    ensures
        parse_entries(2, entries.len(), acc, enc_entries(entries) + tail) == Ok::<
            (Seq<EntryModel>, Seq<u8>),
            Failure,
        >((acc + entries, tail)),
    decreases entries.len(),
{
    if entries.len() == 0 {
        assert(enc_entries(entries) + tail =~= tail);
        assert(acc + entries =~= acc);
    } else {
        let more = entries.drop_first();
        let end = enc_entries(more) + tail;
        assert(enc_entries(entries) + tail =~= enc_entry(entries[0]) + end);
        lemma_entry_roundtrip(entries[0], end);
        assert forall|i: int| 0 <= i < more.len() implies entry_fits(#[trigger] more[i])
            && entry_sized(more[i]) by {
            assert(more[i] == entries[i + 1]);
        }
        lemma_entries_roundtrip(more, acc.push(entries[0]), tail);
        assert(acc.push(entries[0]) + more =~= acc + entries);
    }
}

/// A manifest reads back as it was written.
pub proof fn law_manifest_roundtrip(entries: Seq<EntryModel>)
    requires
        manifest_fits(entries),
        forall|i: int| 0 <= i < entries.len() ==> entry_sized(#[trigger] entries[i]),
    ensures
        parse_manifest(enc_manifest(entries)) == Ok::<Seq<EntryModel>, Failure>(entries),
{
    let b = enc_manifest(entries);
    let body = le_bytes(entries.len(), 4) + enc_entries(entries);
    assert(b.take(4) =~= manifest_magic());
    assert(b.skip(4) =~= body);
    assert(old_manifest_magic()[3] == 49);
    assert(manifest_magic()[3] == 50);
    lemma_pow256_values();
    lemma_parse_le_roundtrip(entries.len(), 4, enc_entries(entries));
    assert(enc_entries(entries) + Seq::<u8>::empty() =~= enc_entries(entries));
    lemma_entries_roundtrip(entries, Seq::empty(), Seq::empty());
    assert(Seq::<EntryModel>::empty() + entries =~= entries);
}

fn write_scope(out: &mut Vec<u8>, namespace: &Option<String>) -> (r: Result<(), VectLiteError>)
    ensures
        ({
            let fits = namespace.deep_view() matches Some(ns) ==> text_fits(ns);
            &&& fits ==> r is Ok && final(out)@ == old(out)@ + enc_scope(namespace.deep_view())
            &&& !fits ==> (r matches Err(e) && e@ == too_long())
        }),
{
    match namespace {
        Some(ns) => {
            out.push(1);
            match write_text(out, ns.as_str()) {
                Ok(()) => {},
                Err(e) => {
                    return Err(e);
                },
            }
            proof {
                assert(out@ =~= old(out)@ + enc_scope(namespace.deep_view()));
            }
        },
        None => {
            out.push(0);
            proof {
                assert(out@ =~= old(out)@ + enc_scope(namespace.deep_view()));
            }
        },
    }
    Ok(())
}

fn write_keys(out: &mut Vec<u8>, keys: &Vec<RecordKey>) -> (r: Result<(), VectLiteError>)
    ensures
        ({
            let all = keys.deep_view();
            let fits = forall|i: int| 0 <= i < all.len() ==> key_fits(#[trigger] all[i]);
            &&& fits ==> r is Ok && final(out)@ == old(out)@ + enc_keys(all)
            &&& !fits ==> (r matches Err(e) && e@ == too_long())
        }),
{
    let ghost all = keys.deep_view();
    let ghost head = out@;
    let mut i: usize = 0;
    proof {
        assert(all.skip(0) =~= all);
    }
    while i < keys.len()
        invariant
            i <= keys@.len(),
            all == keys.deep_view(),
            out@ + enc_keys(all.skip(i as int)) == head + enc_keys(all),
            forall|k: int| 0 <= k < i ==> key_fits(#[trigger] all[k]),
        decreases keys@.len() - i,
    {
        let ghost before = out@;
        proof {
            assert(all[i as int] == keys@[i as int].deep_view());
            assert(all.skip(i as int).drop_first() =~= all.skip(i + 1));
        }
        match write_key(out, keys[i].0.as_str(), keys[i].1.as_str()) {
            Ok(()) => {},
            Err(e) => {
                return Err(e);
            },
        }
        proof {
            assert(before + (enc_key(all[i as int]) + enc_keys(all.skip(i + 1))) =~= out@
                + enc_keys(all.skip(i + 1)));
        }
        i += 1;
    }
    proof {
        assert(out@ + enc_keys(all.skip(i as int)) =~= out@);
    }
    Ok(())
}

fn write_entry(out: &mut Vec<u8>, entry: &AnnManifestEntry) -> (r: Result<(), VectLiteError>)
    ensures
        ({
            let e = entry.deep_view();
            &&& entry_fits(e) ==> r is Ok && final(out)@ == old(out)@ + enc_entry(e)
            &&& !entry_fits(e) ==> (r matches Err(x) && x@ == too_long())
        }),
{
    let ghost e = entry.deep_view();
    proof {
        reveal(enc_entry);
        reveal(entry_fits);
        assert(e.keys == entry.keys.deep_view());
    }
    match write_scope(out, &entry.namespace) {
        Ok(()) => {},
        Err(x) => {
            return Err(x);
        },
    }
    match write_text(out, entry.vector_name.as_str()) {
        Ok(()) => {},
        Err(x) => {
            return Err(x);
        },
    }
    write_le(out, entry.record_count as u64, 8);
    write_le(out, entry.key_signature, 8);
    write_le(out, entry.keys.len() as u64, 8);
    match write_keys(out, &entry.keys) {
        Ok(()) => {},
        Err(x) => {
            return Err(x);
        },
    }
    proof {
        assert(out@ =~= old(out)@ + enc_entry(e));
    }
    Ok(())
}

/// The bytes of a manifest.
pub fn write_ann_manifest(entries: &Vec<AnnManifestEntry>) -> (r: Result<Vec<u8>, VectLiteError>)
    ensures
        manifest_fits(entries.deep_view()) ==> (r matches Ok(b) && b@ == enc_manifest(
            entries.deep_view(),
        )),
        !manifest_fits(entries.deep_view()) ==> (r matches Err(e) && e@ == too_long()),
{
    let ghost all = entries.deep_view();
    let mut out: Vec<u8> = Vec::new();
    out.push(65);
    out.push(78);
    out.push(78);
    out.push(50);
    proof {
        assert(out@ =~= manifest_magic());
    }
    match write_len(&mut out, entries.len()) {
        Ok(()) => {},
        Err(e) => {
            return Err(e);
        },
    }
    let ghost head = out@;
    let mut i: usize = 0;
    proof {
        assert(all.skip(0) =~= all);
    }
    while i < entries.len()
        invariant
            i <= entries@.len(),
            all == entries.deep_view(),
            out@ + enc_entries(all.skip(i as int)) == head + enc_entries(all),
            forall|k: int| 0 <= k < i ==> entry_fits(#[trigger] all[k]),
        decreases entries@.len() - i,
    {
        let ghost before = out@;
        proof {
            assert(all[i as int] == entries@[i as int].deep_view());
            assert(all.skip(i as int).drop_first() =~= all.skip(i + 1));
        }
        match write_entry(&mut out, &entries[i]) {
            Ok(()) => {},
            Err(e) => {
                return Err(e);
            },
        }
        proof {
            assert(before + (enc_entry(all[i as int]) + enc_entries(all.skip(i + 1))) =~= out@
                + enc_entries(all.skip(i + 1)));
        }
        i += 1;
    }
    proof {
        assert(out@ + enc_entries(all.skip(i as int)) =~= out@);
        assert(out@ =~= enc_manifest(all));
    }
    Ok(out)
}

fn read_scope(reader: &mut Reader) -> (r: Result<Option<String>, VectLiteError>)
    requires
        old(reader).wf(),
    ensures
        final(reader).wf(),
        agrees(r, final(reader).rest(), parse_scope(old(reader).rest())),
{
    let flag: u8 = match reader.u8() {
        Ok(f) => f,
        Err(e) => {
            return Err(e);
        },
    };
    if flag == 0 {
        return Ok(None);
    }
    match reader.text() {
        Ok(s) => Ok(Some(s)),
        Err(e) => Err(e),
    }
}

fn read_keys(reader: &mut Reader, n: usize) -> (r: Result<Vec<RecordKey>, VectLiteError>)
    requires
        old(reader).wf(),
    ensures
        final(reader).wf(),
        agrees(r, final(reader).rest(), parse_keys(n as nat, Seq::empty(), old(reader).rest())),
{
    let ghost from = reader.rest();
    let mut keys: Vec<RecordKey> = Vec::new();
    let mut i: usize = 0;
    proof {
        assert(keys.deep_view() =~= Seq::<KeyModel>::empty());
    }
    while i < n
        invariant
            reader.wf(),
            i <= n,
            from == old(reader).rest(),
            parse_keys((n - i) as nat, keys.deep_view(), reader.rest()) == parse_keys(
                n as nat,
                Seq::empty(),
                from,
            ),
        decreases n - i,
    {
        let ghost before = keys.deep_view();
        match read_key(reader) {
            Ok(k) => {
                keys.push(k);
                proof {
                    assert(keys.deep_view() =~= before.push(k.deep_view()));
                }
            },
            Err(e) => {
                return Err(e);
            },
        }
        i += 1;
    }
    Ok(keys)
}

fn read_entry(reader: &mut Reader, version: u8) -> (r: Result<AnnManifestEntry, VectLiteError>)
    requires
        old(reader).wf(),
    ensures
        final(reader).wf(),
        agrees(r, final(reader).rest(), parse_entry(version as nat, old(reader).rest())),
{
    proof {
        reveal(parse_entry);
    }
    let namespace = match read_scope(reader) {
        Ok(s) => s,
        Err(e) => {
            return Err(e);
        },
    };
    let vector_name = match reader.text() {
        Ok(s) => s,
        Err(e) => {
            return Err(e);
        },
    };
    let record_count: usize = match read_size(reader) {
        Ok(n) => n,
        Err(e) => {
            return Err(e);
        },
    };
    let key_signature: u64 = match reader.u64() {
        Ok(n) => n,
        Err(e) => {
            return Err(e);
        },
    };
    let keys: Vec<RecordKey> = if version >= 2 {
        let n: usize = match read_size(reader) {
            Ok(n) => n,
            Err(e) => {
                return Err(e);
            },
        };
        match read_keys(reader, n) {
            Ok(keys) => keys,
            Err(e) => {
                return Err(e);
            },
        }
    } else {
        let none: Vec<RecordKey> = Vec::new();
        proof {
            assert(none.deep_view() =~= Seq::<KeyModel>::empty());
        }
        none
    };
    Ok(AnnManifestEntry { namespace, vector_name, record_count, key_signature, keys })
}

/// The entries of a manifest.
pub fn read_ann_manifest(bytes: &[u8]) -> (r: Result<Vec<AnnManifestEntry>, VectLiteError>)
    ensures
        match parse_manifest(bytes@) {
            Ok(entries) => r matches Ok(x) && x.deep_view() == entries,
            Err(e) => r matches Err(x) && x@ == e,
        },
{
    let mut reader = Reader::new(bytes);
    proof {
        assert(bytes@.skip(0) =~= bytes@);
    }
    let magic = match reader.take(4) {
        Ok(m) => m,
        Err(e) => {
            return Err(e);
        },
    };
    proof {
        assert(old_manifest_magic()[3] == 49);
        assert(manifest_magic()[3] == 50);
    }
    if magic[0] != 65 || magic[1] != 78 || magic[2] != 78 || (magic[3] != 49 && magic[3] != 50) {
        return Err(invalid("invalid ANN manifest"));
    }
    let version: u8 = if magic[3] == 49 {
        1
    } else {
        2
    };
    proof {
        if version == 1 {
            assert(magic@ =~= old_manifest_magic());
        } else {
            assert(magic@ =~= manifest_magic());
        }
    }
    let n: u32 = match reader.u32() {
        Ok(n) => n,
        Err(e) => {
            return Err(e);
        },
    };
    let ghost from = reader.rest();
    let mut entries: Vec<AnnManifestEntry> = Vec::new();
    let mut i: u32 = 0;
    proof {
        assert(entries.deep_view() =~= Seq::<EntryModel>::empty());
    }
    while i < n
        invariant
            reader.wf(),
            i <= n,
            parse_entries(version as nat, (n - i) as nat, entries.deep_view(), reader.rest())
                == parse_entries(version as nat, n as nat, Seq::empty(), from),
            parse_manifest(bytes@) == (match parse_entries(
                version as nat,
                n as nat,
                Seq::empty(),
                from,
            ) {
                Err(e) => Err(e),
                Ok((entries, _)) => Ok(entries),
            }),
        decreases n - i,
    {
        let ghost before = entries.deep_view();
        match read_entry(&mut reader, version) {
            Ok(e) => {
                entries.push(e);
                proof {
                    assert(entries.deep_view() =~= before.push(e.deep_view()));
                }
            },
            Err(e) => {
                return Err(e);
            },
        }
        i += 1;
    }
    Ok(entries)
}

/// The first entry of a slot.
pub open spec fn find_entry(entries: Seq<EntryModel>, slot: SlotId) -> Option<EntryModel>
    decreases entries.len(),
{
    if entries.len() == 0 {
        None
    } else if entries[0].slot == slot {
        Some(entries[0])
    } else {
        find_entry(entries.drop_first(), slot)
    }
}

/// The keys of a stored graph by id, if it is a graph over the expected records. Entries without
/// keys stand for graphs that were built in record order.
pub open spec fn stored_keys(expected: EntryModel, stored: Seq<EntryModel>) -> Option<
    Seq<KeyModel>,
> {
    match find_entry(stored, expected.slot) {
        None => None,
        Some(e) => if e.record_count != expected.record_count || e.key_signature
            != expected.key_signature {
            None
        } else if e.keys.len() == 0 {
            Some(expected.keys)
        } else if e.keys.len() != e.record_count {
            None
        } else {
            Some(e.keys)
        },
    }
}

/// The graphs to load, if every expected graph is stored.
pub open spec fn slots_to_load(expected: Seq<EntryModel>, stored: Seq<EntryModel>) -> Option<
    Seq<(SlotId, Seq<KeyModel>)>,
>
    decreases expected.len(),
{
    if expected.len() == 0 {
        Some(Seq::empty())
    } else {
        match (
            slots_to_load(expected.drop_last(), stored),
            stored_keys(expected.last(), stored),
        ) {
            (Some(before), Some(keys)) => Some(before.push((expected.last().slot, keys))),
            _ => None,
        }
    }
}

/// The graphs to load: none unless the manifest has exactly as many graphs as are expected.
pub open spec fn load_plan(expected: Seq<EntryModel>, stored: Seq<EntryModel>) -> Option<
    Seq<(SlotId, Seq<KeyModel>)>,
> {
    if expected.len() != stored.len() {
        None
    } else {
        slots_to_load(expected, stored)
    }
}

fn same_scope(a: &Option<String>, b: &Option<String>) -> (r: bool)
    ensures
        r == (a.deep_view() == b.deep_view()),
{
    match (a, b) {
        (None, None) => true,
        (Some(x), Some(y)) => same_text(x.as_str(), y.as_str()),
        _ => false,
    }
}

fn entry_keys(expected: &AnnManifestEntry, stored: &Vec<AnnManifestEntry>) -> (r: Option<
    Vec<RecordKey>,
>)
    ensures
        r.deep_view() == stored_keys(expected.deep_view(), stored.deep_view()),
{
    let ghost all = stored.deep_view();
    let ghost slot = expected.deep_view().slot;
    let mut i: usize = 0;
    proof {
        assert(all.skip(0) =~= all);
    }
    while i < stored.len()
        invariant
            i <= stored@.len(),
            all == stored.deep_view(),
            slot == expected.deep_view().slot,
            find_entry(all.skip(i as int), slot) == find_entry(all, slot),
        decreases stored@.len() - i,
    {
        let e = &stored[i];
        proof {
            assert(all.skip(i as int)[0] == e.deep_view());
            assert(all.skip(i as int).drop_first() =~= all.skip(i + 1));
        }
        if same_scope(&e.namespace, &expected.namespace) && same_text(
            e.vector_name.as_str(),
            expected.vector_name.as_str(),
        ) {
            if e.record_count != expected.record_count || e.key_signature
                != expected.key_signature {
                return None;
            }
            if e.keys.len() == 0 {
                return Some(expected.keys.duplicate());
            }
            if e.keys.len() != e.record_count {
                return None;
            }
            return Some(e.keys.duplicate());
        }
        i += 1;
    }
    None
}

/// The graphs to load from a manifest: for each slot that a rebuild would make, its key by id.
pub fn plan_ann_load(expected: &Vec<AnnManifestEntry>, stored: &Vec<AnnManifestEntry>) -> (r: Option<
    Vec<((Option<String>, String), Vec<RecordKey>)>,
>)
    ensures
        r.deep_view() == load_plan(expected.deep_view(), stored.deep_view()),
{
    let ghost all = expected.deep_view();
    if expected.len() != stored.len() {
        return None;
    }
    let mut out: Vec<((Option<String>, String), Vec<RecordKey>)> = Vec::new();
    let mut i: usize = 0;
    proof {
        assert(all.take(0) =~= Seq::empty());
        assert(out.deep_view() =~= Seq::<(SlotId, Seq<KeyModel>)>::empty());
    }
    while i < expected.len()
        invariant
            i <= expected@.len(),
            all == expected.deep_view(),
            all.len() == stored@.len(),
            slots_to_load(all.take(i as int), stored.deep_view()) == Some(out.deep_view()),
        decreases expected@.len() - i,
    {
        let ghost before = out.deep_view();
        let e = &expected[i];
        proof {
            assert(all.take(i + 1).drop_last() =~= all.take(i as int));
            assert(all.take(i + 1).last() == e.deep_view());
        }
        match entry_keys(e, stored) {
            Some(keys) => {
                let scope: Option<String> = match &e.namespace {
                    Some(ns) => Some(ns.duplicate()),
                    None => None,
                };
                let item = ((scope, e.vector_name.duplicate()), keys);
                out.push(item);
                proof {
                    assert(item.deep_view() == (e.deep_view().slot, keys.deep_view()));
                    assert(out.deep_view() =~= before.push(item.deep_view()));
                }
            },
            None => {
                proof {
                    lemma_load_fails(all, stored.deep_view(), i + 1);
                }
                return None;
            },
        }
        i += 1;
    }
    proof {
        assert(all.take(i as int) =~= all);
    }
    Some(out)
}

/// When some graphs cannot be loaded then nothing is.
proof fn lemma_load_fails(expected: Seq<EntryModel>, stored: Seq<EntryModel>, i: int)
    requires
        0 <= i <= expected.len(),
        slots_to_load(expected.take(i), stored) is None,
    ensures
        slots_to_load(expected, stored) is None,
    decreases expected.len() - i,
{
    if i < expected.len() {
        assert(expected.take(i + 1).drop_last() =~= expected.take(i));
        lemma_load_fails(expected, stored, i + 1);
    } else {
        assert(expected.take(i) =~= expected);
    }
}

/// The bookkeeping of loaded graphs.
pub open spec fn adopted(slots: Seq<(SlotId, Seq<KeyModel>)>) -> Catalog
    decreases slots.len(),
{
    if slots.len() == 0 {
        Catalog::empty()
    } else {
        adopted(slots.drop_last()).insert(slots.last().0, fresh_slot(slots.last().1))
    }
}

impl AnnCatalog {
    /// Replaces the bookkeeping by that of loaded graphs.
    pub fn adopt(&mut self, slots: &Vec<((Option<String>, String), Vec<RecordKey>)>)
        ensures
            final(self)@ == adopted(slots.deep_view()),
    {
        let ghost all = slots.deep_view();
        let mut loaded: OrderedMap<(Option<String>, String), AnnIndex> = OrderedMap::new();
        let mut i: usize = 0;
        proof {
            assert(all.take(0) =~= Seq::empty());
        }
        while i < slots.len()
            invariant
                i <= slots@.len(),
                all == slots.deep_view(),
                loaded@ == adopted(all.take(i as int)),
            decreases slots@.len() - i,
        {
            let item = &slots[i];
            loaded.put(item.0.duplicate(), AnnIndex::build(&item.1));
            proof {
                assert(all.take(i + 1).drop_last() =~= all.take(i as int));
                assert(all.take(i + 1).last() == item.deep_view());
            }
            i += 1;
        }
        proof {
            assert(all.take(i as int) =~= all);
        }
        self.slots = loaded;
    }
}

/// Whether graphs hold exactly the records of each slot that is large enough, in any order and
/// with none of them dead.
pub open spec fn graphs_exact(
    graphs: Seq<(SlotId, SlotModel)>,
    rows: Seq<(KeyModel, RecordModel)>,
) -> bool {
    &&& ascending::<(Option<String>, String), SlotModel>(graphs)
    &&& forall|i: int|
        0 <= i < graphs.len() ==> {
            &&& (#[trigger] graphs[i]).1.dead == Set::<usize>::empty()
            &&& graphs[i].1.keys.to_multiset() == members(rows, graphs[i].0).to_multiset()
            &&& graphs[i].1.keys.len() >= ANN_MIN_POINTS
        }
    &&& forall|s: SlotId|
        (#[trigger] members(rows, s)).len() >= ANN_MIN_POINTS ==> has_key(graphs, s)
}

proof fn lemma_actual_at(graphs: Seq<(SlotId, SlotModel)>, n: int)
    requires
        0 <= n <= graphs.len(),
        forall|i: int| 0 <= i < graphs.len() ==> (#[trigger] graphs[i]).1.keys.len()
            >= ANN_MIN_POINTS,
    ensures
        actual_entries(graphs.take(n)) == Seq::new(
            n as nat,
            |i: int| entry_for(graphs[i].0, graphs[i].1.keys),
        ),
    decreases n,
{
    let goal = Seq::new(n as nat, |i: int| entry_for(graphs[i].0, graphs[i].1.keys));
    if n > 0 {
        lemma_actual_at(graphs, n - 1);
        assert(graphs.take(n).drop_last() =~= graphs.take(n - 1));
        assert(graphs.take(n).last() == graphs[n - 1]);
        assert(graphs[n - 1].1.keys.len() >= ANN_MIN_POINTS);
        assert(actual_entries(graphs.take(n)) =~= goal);
    } else {
        assert(actual_entries(graphs.take(n)) =~= goal);
    }
}

proof fn lemma_find_at(entries: Seq<EntryModel>, i: int)
    requires
        0 <= i < entries.len(),
        forall|a: int, b: int|
            #![trigger entries[a], entries[b]]
            0 <= a < b < entries.len() ==> entries[a].slot != entries[b].slot,
    ensures
        find_entry(entries, entries[i].slot) == Some(entries[i]),
    decreases entries.len(),
{
    if i > 0 {
        assert(entries[0].slot != entries[i].slot);
        let more = entries.drop_first();
        assert forall|a: int, b: int|
            #![trigger more[a], more[b]]
            0 <= a < b < more.len() implies more[a].slot != more[b].slot by {
            assert(entries[a + 1].slot != entries[b + 1].slot);
        }
        lemma_find_at(more, i - 1);
        assert(more[i - 1] == entries[i]);
    }
}

/// The slots of exact graphs are the expected ones.
proof fn lemma_slots_agree(
    graphs: Seq<(SlotId, SlotModel)>,
    expected: Seq<EntryModel>,
    rows: Seq<(KeyModel, RecordModel)>,
)
    requires
        graphs_exact(graphs, rows),
        entries_expected(expected, rows),
    ensures
        expected.len() == graphs.len(),
        forall|i: int| 0 <= i < graphs.len() ==> (#[trigger] expected[i]).slot == graphs[i].0,
{
    let a = Seq::new(graphs.len(), |i: int| (graphs[i].0, true));
    let b = Seq::new(expected.len(), |i: int| (expected[i].slot, true));
    assert forall|i: int, j: int|
        0 <= i < j < a.len() implies <(Option<String>, String) as Key>::before(
        (#[trigger] a[i]).0,
        (#[trigger] a[j]).0,
    ) by {
        assert(<(Option<String>, String) as Key>::before(graphs[i].0, graphs[j].0));
    }
    assert forall|i: int, j: int|
        0 <= i < j < b.len() implies <(Option<String>, String) as Key>::before(
        (#[trigger] b[i]).0,
        (#[trigger] b[j]).0,
    ) by {
        assert(slot_before(expected[i].slot, expected[j].slot));
        assert(<(Option<String>, String) as Key>::before(b[i].0, b[j].0) == slot_before(
            b[i].0,
            b[j].0,
        ));
    }
    assert forall|s: SlotId| has_key(a, s) == has_key(b, s) by {
        if has_key(a, s) {
            let i = choose|i: int| 0 <= i < a.len() && (#[trigger] a[i]).0 == s;
            assert(graphs[i].0 == s);
            vstd::seq_lib::to_multiset_len(graphs[i].1.keys);
            vstd::seq_lib::to_multiset_len(members(rows, s));
            let k = choose|k: int| 0 <= k < expected.len() && (#[trigger] expected[k]).slot == s;
            assert(b[k].0 == s);
        }
        if has_key(b, s) {
            let k = choose|k: int| 0 <= k < b.len() && (#[trigger] b[k]).0 == s;
            assert(expected[k].slot == s);
            assert(members(rows, s).len() >= ANN_MIN_POINTS);
            let i = choose|i: int| 0 <= i < graphs.len() && (#[trigger] graphs[i]).0 == s;
            assert(a[i].0 == s);
        }
    }
    assert forall|s: SlotId| map_of(a).contains_key(s) implies map_of(a)[s] == map_of(b)[s] by {
        let i = position_of(a, s);
        let j = position_of(b, s);
        assert(a[i].1 == b[j].1);
    }
    assert(map_of(a) =~= map_of(b));
    lemma_ascending_determined::<(Option<String>, String), bool>(a, b);
    assert forall|i: int| 0 <= i < graphs.len() implies (#[trigger] expected[i]).slot
        == graphs[i].0 by {
        assert(a[i] == b[i]);
    }
}

/// A manifest that is written for graphs that hold exactly the records restores these graphs,
/// with every key at its id.
pub proof fn law_manifest_restores(
    graphs: Seq<(SlotId, SlotModel)>,
    expected: Seq<EntryModel>,
    rows: Seq<(KeyModel, RecordModel)>,
)
    requires
        graphs_exact(graphs, rows),
        entries_expected(expected, rows),
    ensures
        load_plan(expected, actual_entries(graphs)) == Some(
            Seq::new(graphs.len(), |i: int| (graphs[i].0, graphs[i].1.keys)),
        ),
        adopted(Seq::new(graphs.len(), |i: int| (graphs[i].0, graphs[i].1.keys))) == map_of(graphs),
{
    let stored = actual_entries(graphs);
    let slots = Seq::new(graphs.len(), |i: int| (graphs[i].0, graphs[i].1.keys));
    lemma_slots_agree(graphs, expected, rows);
    lemma_actual_at(graphs, graphs.len() as int);
    assert(graphs.take(graphs.len() as int) =~= graphs);
    assert forall|a: int, b: int|
        #![trigger stored[a], stored[b]]
        0 <= a < b < stored.len() implies stored[a].slot != stored[b].slot by {
        assert(<(Option<String>, String) as Key>::before(graphs[a].0, graphs[b].0));
        <(Option<String>, String) as Key>::lemma_irreflexive(graphs[a].0);
    }
    assert forall|i: int| 0 <= i < expected.len() implies stored_keys(
        #[trigger] expected[i],
        stored,
    ) == Some(graphs[i].1.keys) by {
        lemma_find_at(stored, i);
        assert(expected[i].slot == graphs[i].0);
        assert(stored[i] == entry_for(graphs[i].0, graphs[i].1.keys));
        assert(graphs[i].1.keys.to_multiset() == members(rows, graphs[i].0).to_multiset());
        law_signature_order_independent(graphs[i].1.keys, members(rows, graphs[i].0));
        vstd::seq_lib::to_multiset_len(graphs[i].1.keys);
        vstd::seq_lib::to_multiset_len(members(rows, graphs[i].0));
    }
    lemma_load_all(expected, stored, slots, expected.len() as int);
    assert(expected.take(expected.len() as int) =~= expected);
    assert(slots.take(slots.len() as int) =~= slots);
    lemma_adopted(graphs, slots, graphs.len() as int);
}

proof fn lemma_load_all(
    expected: Seq<EntryModel>,
    stored: Seq<EntryModel>,
    slots: Seq<(SlotId, Seq<KeyModel>)>,
    n: int,
)
    requires
        0 <= n <= expected.len() == slots.len(),
        forall|i: int|
            0 <= i < expected.len() ==> stored_keys(#[trigger] expected[i], stored) == Some(
                slots[i].1,
            ) && expected[i].slot == slots[i].0,
    ensures
        slots_to_load(expected.take(n), stored) == Some(slots.take(n)),
    decreases n,
{
    if n > 0 {
        lemma_load_all(expected, stored, slots, n - 1);
        assert(expected.take(n).drop_last() =~= expected.take(n - 1));
        assert(expected.take(n).last() == expected[n - 1]);
        assert(slots.take(n) =~= slots.take(n - 1).push(slots[n - 1]));
    } else {
        assert(slots.take(n) =~= Seq::empty());
    }
}

proof fn lemma_adopted(
    graphs: Seq<(SlotId, SlotModel)>,
    slots: Seq<(SlotId, Seq<KeyModel>)>,
    n: int,
)
    requires
        0 <= n <= graphs.len() == slots.len(),
        ascending::<(Option<String>, String), SlotModel>(graphs),
        forall|i: int|
            0 <= i < graphs.len() ==> (#[trigger] graphs[i]).1.dead == Set::<usize>::empty()
                && slots[i] == (graphs[i].0, graphs[i].1.keys),
    ensures
        adopted(slots.take(n)) == map_of(graphs.take(n)),
    decreases n,
{
    if n > 0 {
        lemma_adopted(graphs, slots, n - 1);
        lemma_map_of_take::<(Option<String>, String), SlotModel>(graphs, n - 1);
        assert(slots.take(n).drop_last() =~= slots.take(n - 1));
        assert(slots.take(n).last() == slots[n - 1]);
        assert(graphs[n - 1].1.dead == Set::<usize>::empty());
        assert(fresh_slot(slots[n - 1].1) =~= graphs[n - 1].1);
    } else {
        assert(map_of(graphs.take(n)) =~= Catalog::empty());
    }
}

} // verus!
