//! The bytes that a list of stored vectors is kept as.
//!
//! The list is its length, followed by its entries; an entry is the number of its
//! node, the length of its vector, and the components of the vector. Numbers and
//! lengths take eight bytes and components take four, all with the lowest byte
//! first.

use vstd::arithmetic::div_mod::lemma_div_denominator;
use vstd::arithmetic::power::{lemma_pow0, lemma_pow_positive, pow};
use vstd::prelude::*;

verus! {

/// The lowest `width` bytes of a number, lowest byte first.
pub open spec fn le_bytes(n: nat, width: nat) -> Seq<u8>
    decreases width,
{
    if width == 0 {
        seq![]
    } else {
        seq![(n % 256) as u8] + le_bytes(n / 256, (width - 1) as nat)
    }
}

/// The number that bytes stand for, lowest byte first.
spec fn le_value(bytes: Seq<u8>) -> nat
    decreases bytes.len(),
{
    if bytes.len() == 0 {
        0
    } else {
        bytes.first() as nat + 256 * le_value(bytes.drop_first())
    }
}

/// The components of a vector as bytes.
pub open spec fn component_bytes(vector: Seq<u32>) -> Seq<u8>
    decreases vector.len(),
{
    if vector.len() == 0 {
        seq![]
    } else {
        le_bytes(vector.first() as nat, 4) + component_bytes(vector.drop_first())
    }
}

/// An entry, which is a node number with a vector, as bytes.
pub open spec fn entry_bytes(entry: (u64, Seq<u32>)) -> Seq<u8> {
    le_bytes(entry.0 as nat, 8) + le_bytes(entry.1.len(), 8) + component_bytes(entry.1)
}

/// Entries one after the other as bytes.
pub open spec fn entries_bytes(entries: Seq<(u64, Seq<u32>)>) -> Seq<u8>
    decreases entries.len(),
{
    if entries.len() == 0 {
        seq![]
    } else {
        entry_bytes(entries.first()) + entries_bytes(entries.drop_first())
    }
}

/// A list of entries as bytes.
pub open spec fn encoding(entries: Seq<(u64, Seq<u32>)>) -> Seq<u8> {
    le_bytes(entries.len(), 8) + entries_bytes(entries)
}

/// The list and its vectors are no longer than a length of eight bytes can say.
pub open spec fn encodable(entries: Seq<(u64, Seq<u32>)>) -> bool {
    &&& entries.len() <= u64::MAX
    &&& forall|i: int| 0 <= i < entries.len() ==> (#[trigger] entries[i]).1.len() <= u64::MAX
}

/// The bytes begin with the list of entries. What follows it is not looked at.
pub open spec fn begins_with(bytes: Seq<u8>, entries: Seq<(u64, Seq<u32>)>) -> bool {
    encodable(entries) && encoding(entries).is_prefix_of(bytes)
}

/// The list of entries that bytes begin with, if they begin with one.
pub open spec fn decoded(bytes: Seq<u8>) -> Option<Seq<(u64, Seq<u32>)>> {
    if exists|entries: Seq<(u64, Seq<u32>)>| begins_with(bytes, entries) {
        Some(choose|entries: Seq<(u64, Seq<u32>)>| begins_with(bytes, entries))
    } else {
        None
    }
}

/// The entries that a list of node numbers and borrowed vectors stands for.
pub open spec fn borrowed_entries(list: Seq<(u64, &Vec<u32>)>) -> Seq<(u64, Seq<u32>)> {
    Seq::new(list.len(), |i: int| (list[i].0, list[i].1@))
}

/// The entries that a list of node numbers and vectors stands for.
pub open spec fn owned_entries(list: Seq<(u64, Vec<u32>)>) -> Seq<(u64, Seq<u32>)> {
    Seq::new(list.len(), |i: int| (list[i].0, list[i].1@))
}

/// The text of the error with which bytes that begin with no list are refused, on
/// a machine with pointers of `pointer_bits` bits.
pub uninterp spec fn decode_failure(bytes: Seq<u8>, pointer_bits: u32) -> Seq<char>;

/// Calls `bincode::serialize_into` on a growing buffer, which takes every byte, so
/// that the call succeeds: the buffer then holds the bytes of the list.
#[verifier::external_body]
pub(crate) fn bincode_encode(list: &Vec<(u64, &Vec<u32>)>) -> (r: Result<Vec<u8>, String>)
    ensures
        r is Ok,
        r->Ok_0@ == encoding(borrowed_entries(list@)),
{
    let mut bytes = Vec::new();
    match bincode::serialize_into(&mut bytes, list) {
        Ok(()) => Ok(bytes),
        Err(e) => Err(e.to_string()),
    }
}

/// Calls `bincode::deserialize_from` on the bytes. It gives the list that they
/// begin with, and fails, with a text that depends on the bytes and the size of a
/// pointer alone, where they begin with none.
#[verifier::external_body]
pub(crate) fn bincode_decode(bytes: &[u8]) -> (r: Result<Vec<(u64, Vec<u32>)>, String>)
    ensures
        r is Ok ==> begins_with(bytes@, owned_entries(r->Ok_0@)),
        r is Err ==> decoded(bytes@) is None,
        r is Err ==> r->Err_0@ == decode_failure(bytes@, usize::BITS),
{
    bincode::deserialize_from(bytes).map_err(|e: bincode::Error| e.to_string())
}

proof fn lemma_le_bytes_len(n: nat, width: nat)
    ensures
        le_bytes(n, width).len() == width,
    decreases width,
{
    if width > 0 {
        lemma_le_bytes_len(n / 256, (width - 1) as nat);
    }
}

/// A number below 256 to the power of `width` is what its bytes stand for.
spec fn fits(n: nat, width: nat) -> bool
    decreases width,
{
    if width == 0 {
        n == 0
    } else {
        fits(n / 256, (width - 1) as nat)
    }
}

proof fn lemma_le_value(n: nat, width: nat)
    requires
        fits(n, width),
    ensures
        le_value(le_bytes(n, width)) == n,
    decreases width,
{
    if width > 0 {
        let rest = le_bytes(n / 256, (width - 1) as nat);
        lemma_le_value(n / 256, (width - 1) as nat);
        assert(le_bytes(n, width).drop_first() =~= rest);
    }
}

proof fn lemma_fits_eight(n: nat)
    requires
        n <= u64::MAX,
    ensures
        fits(n, 8),
{
    reveal_with_fuel(fits, 9);
}

proof fn lemma_fits_four(n: nat)
    requires
        n <= u32::MAX,
    ensures
        fits(n, 4),
{
    reveal_with_fuel(fits, 5);
}

/// Two numbers whose bytes begin the same stream are the same number.
proof fn lemma_le_bytes_injective(a: nat, b: nat, width: nat, stream: Seq<u8>)
    requires
        fits(a, width),
        fits(b, width),
        le_bytes(a, width).is_prefix_of(stream),
        le_bytes(b, width).is_prefix_of(stream),
    ensures
        a == b,
{
    lemma_le_bytes_len(a, width);
    lemma_le_bytes_len(b, width);
    lemma_le_value(a, width);
    lemma_le_value(b, width);
    assert(le_bytes(a, width) =~= le_bytes(b, width));
}

/// Where a stream begins with two parts, it begins with the first, and what is
/// left after that begins with the second.
proof fn lemma_split_prefix(first: Seq<u8>, second: Seq<u8>, stream: Seq<u8>)
    requires
        (first + second).is_prefix_of(stream),
    ensures
        first.is_prefix_of(stream),
        second.is_prefix_of(stream.skip(first.len() as int)),
{
    assert(first =~= stream.take(first.len() as int)) by {
        assert forall|i: int| 0 <= i < first.len() implies first[i] == stream[i] by {
            assert((first + second)[i] == first[i]);
        }
    }
    let left = stream.skip(first.len() as int);
    assert(second =~= left.take(second.len() as int)) by {
        assert forall|i: int| 0 <= i < second.len() implies second[i] == left[i] by {
            assert((first + second)[first.len() + i] == second[i]);
        }
    }
}

proof fn lemma_component_bytes_injective(a: Seq<u32>, b: Seq<u32>, stream: Seq<u8>)
    requires
        a.len() == b.len(),
        component_bytes(a).is_prefix_of(stream),
        component_bytes(b).is_prefix_of(stream),
    ensures
        a == b,
    decreases a.len(),
{
    if a.len() > 0 {
        lemma_split_prefix(
            le_bytes(a.first() as nat, 4),
            component_bytes(a.drop_first()),
            stream,
        );
        lemma_split_prefix(
            le_bytes(b.first() as nat, 4),
            component_bytes(b.drop_first()),
            stream,
        );
        lemma_fits_four(a.first() as nat);
        lemma_fits_four(b.first() as nat);
        lemma_le_bytes_injective(a.first() as nat, b.first() as nat, 4, stream);
        lemma_le_bytes_len(a.first() as nat, 4);
        lemma_component_bytes_injective(a.drop_first(), b.drop_first(), stream.skip(4));
        assert(a =~= seq![a.first()] + a.drop_first());
        assert(b =~= seq![b.first()] + b.drop_first());
    } else {
        assert(a =~= b);
    }
}

/// Two entries whose bytes begin the same stream are the same entry.
proof fn lemma_entry_bytes_injective(a: (u64, Seq<u32>), b: (u64, Seq<u32>), stream: Seq<u8>)
    requires
        a.1.len() <= u64::MAX,
        b.1.len() <= u64::MAX,
        entry_bytes(a).is_prefix_of(stream),
        entry_bytes(b).is_prefix_of(stream),
    ensures
        a == b,
{
    lemma_le_bytes_len(a.0 as nat, 8);
    lemma_le_bytes_len(b.0 as nat, 8);
    lemma_le_bytes_len(a.1.len(), 8);
    lemma_le_bytes_len(b.1.len(), 8);
    lemma_fits_eight(a.0 as nat);
    lemma_fits_eight(b.0 as nat);
    lemma_fits_eight(a.1.len());
    lemma_fits_eight(b.1.len());
    lemma_entry_parts(a, stream);
    lemma_entry_parts(b, stream);
    lemma_le_bytes_injective(a.0 as nat, b.0 as nat, 8, stream);
    lemma_le_bytes_injective(a.1.len(), b.1.len(), 8, stream.skip(8));
    lemma_component_bytes_injective(a.1, b.1, stream.skip(8).skip(8));
}

proof fn lemma_entry_parts(entry: (u64, Seq<u32>), stream: Seq<u8>)
    requires
        entry_bytes(entry).is_prefix_of(stream),
    ensures
        le_bytes(entry.0 as nat, 8).is_prefix_of(stream),
        le_bytes(entry.1.len(), 8).is_prefix_of(stream.skip(8)),
        component_bytes(entry.1).is_prefix_of(stream.skip(8).skip(8)),
{
    let id = le_bytes(entry.0 as nat, 8);
    let len = le_bytes(entry.1.len(), 8);
    let components = component_bytes(entry.1);
    lemma_le_bytes_len(entry.0 as nat, 8);
    lemma_le_bytes_len(entry.1.len(), 8);
    assert(id + len + components =~= id + (len + components));
    lemma_split_prefix(id, len + components, stream);
    lemma_split_prefix(len, components, stream.skip(8));
}

proof fn lemma_entries_bytes_injective(
    a: Seq<(u64, Seq<u32>)>,
    b: Seq<(u64, Seq<u32>)>,
    stream: Seq<u8>,
)
    requires
        a.len() == b.len(),
        encodable(a),
        encodable(b),
        entries_bytes(a).is_prefix_of(stream),
        entries_bytes(b).is_prefix_of(stream),
    ensures
        a == b,
    decreases a.len(),
{
    if a.len() > 0 {
        lemma_split_prefix(entry_bytes(a.first()), entries_bytes(a.drop_first()), stream);
        lemma_split_prefix(entry_bytes(b.first()), entries_bytes(b.drop_first()), stream);
        lemma_entry_bytes_injective(a.first(), b.first(), stream);
        assert(encodable(a.drop_first())) by {
            assert forall|i: int| 0 <= i < a.drop_first().len() implies (
            #[trigger] a.drop_first()[i]).1.len() <= u64::MAX by {
                assert(a.drop_first()[i] == a[i + 1]);
            }
        }
        assert(encodable(b.drop_first())) by {
            assert forall|i: int| 0 <= i < b.drop_first().len() implies (
            #[trigger] b.drop_first()[i]).1.len() <= u64::MAX by {
                assert(b.drop_first()[i] == b[i + 1]);
            }
        }
        lemma_entries_bytes_injective(
            a.drop_first(),
            b.drop_first(),
            stream.skip(entry_bytes(a.first()).len() as int),
        );
        assert(a =~= seq![a.first()] + a.drop_first());
        assert(b =~= seq![b.first()] + b.drop_first());
    } else {
        assert(a =~= b);
    }
}

/// Bytes begin with one list of entries at most.
pub proof fn lemma_one_list(
    a: Seq<(u64, Seq<u32>)>,
    b: Seq<(u64, Seq<u32>)>,
    bytes: Seq<u8>,
)
    requires
        begins_with(bytes, a),
        begins_with(bytes, b),
    ensures
        a == b,
{
    lemma_le_bytes_len(a.len(), 8);
    lemma_le_bytes_len(b.len(), 8);
    lemma_fits_eight(a.len());
    lemma_fits_eight(b.len());
    lemma_split_prefix(le_bytes(a.len(), 8), entries_bytes(a), bytes);
    lemma_split_prefix(le_bytes(b.len(), 8), entries_bytes(b), bytes);
    lemma_le_bytes_injective(a.len(), b.len(), 8, bytes);
    lemma_entries_bytes_injective(a, b, bytes.skip(8));
}

/// Where bytes begin with a list of entries, that is the list they are decoded to.
pub proof fn lemma_decoded(bytes: Seq<u8>, entries: Seq<(u64, Seq<u32>)>)
    requires
        begins_with(bytes, entries),
    ensures
        decoded(bytes) == Some(entries),
{
    let other = choose|other: Seq<(u64, Seq<u32>)>| begins_with(bytes, other);
    lemma_one_list(entries, other, bytes);
}

/// The byte of a number that counts for 256 to the power of `place`.
pub open spec fn byte_at(n: nat, place: nat) -> u8 {
    ((n as int / pow(256, place)) % 256) as u8
}

proof fn lemma_le_byte(n: nat, width: nat, place: nat)
    requires
        place < width,
    ensures
        le_bytes(n, width).len() == width,
        le_bytes(n, width)[place as int] == byte_at(n, place),
    decreases width,
{
    lemma_le_bytes_len(n, width);
    if place == 0 {
        lemma_pow0(256);
    } else {
        let rest = le_bytes(n / 256, (width - 1) as nat);
        let lower = (place - 1) as nat;
        lemma_le_byte(n / 256, (width - 1) as nat, lower);
        assert(le_bytes(n, width)[place as int] == rest[lower as int]);
        lemma_pow_positive(256, lower);
        lemma_div_denominator(n as int, 256, pow(256, lower));
        reveal(pow);
        assert(pow(256, place) == 256 * pow(256, lower));
    }
}

proof fn lemma_component_byte(vector: Seq<u32>, i: int, place: nat)
    requires
        0 <= i < vector.len(),
        place < 4,
    ensures
        component_bytes(vector).len() == 4 * vector.len(),
        component_bytes(vector)[4 * i + place] == byte_at(vector[i] as nat, place),
    decreases vector.len(),
{
    let first = le_bytes(vector.first() as nat, 4);
    let rest = component_bytes(vector.drop_first());
    lemma_component_bytes_len(vector);
    lemma_le_byte(vector.first() as nat, 4, place);
    if i > 0 {
        lemma_component_byte(vector.drop_first(), i - 1, place);
        assert(component_bytes(vector)[4 * i + place] == rest[4 * (i - 1) + place]);
    }
}

proof fn lemma_component_bytes_len(vector: Seq<u32>)
    ensures
        component_bytes(vector).len() == 4 * vector.len(),
    decreases vector.len(),
{
    if vector.len() > 0 {
        lemma_le_bytes_len(vector.first() as nat, 4);
        lemma_component_bytes_len(vector.drop_first());
    }
}

proof fn lemma_entries_bytes_push(entries: Seq<(u64, Seq<u32>)>, entry: (u64, Seq<u32>))
    ensures
        entries_bytes(entries.push(entry)) == entries_bytes(entries) + entry_bytes(entry),
    decreases entries.len(),
{
    let longer = entries.push(entry);
    if entries.len() > 0 {
        lemma_entries_bytes_push(entries.drop_first(), entry);
        assert(longer.drop_first() =~= entries.drop_first().push(entry));
        assert(longer.first() == entries.first());
        assert(entries_bytes(longer) =~= entries_bytes(entries) + entry_bytes(entry));
    } else {
        assert(longer.drop_first() =~= entries);
        assert(entries_bytes(longer) =~= entries_bytes(entries) + entry_bytes(entry));
    }
}

/// A saved list begins with its length, which takes eight bytes, the lowest first.
/// A list without entries is nothing else.
pub proof fn law_saved_list_begins_with_its_length(entries: Seq<(u64, Seq<u32>)>, place: nat)
    requires
        place < 8,
    ensures
        encoding(entries).len() >= 8,
        encoding(entries)[place as int] == byte_at(entries.len(), place),
        entries.len() == 0 ==> encoding(entries).len() == 8,
{
    lemma_le_byte(entries.len(), 8, place);
}

/// One more entry adds its bytes to a saved list and changes nothing after the
/// length: the node number and the number of components, eight bytes each, and the
/// components, four bytes each, all with the lowest byte first.
pub proof fn law_saved_list_grows_by_its_entry(
    entries: Seq<(u64, Seq<u32>)>,
    entry: (u64, Seq<u32>),
    i: int,
    place: nat,
)
    ensures
        encoding(entries.push(entry)).len() == encoding(entries).len() + 16 + 4 * entry.1.len(),
        8 <= i < encoding(entries).len() ==> encoding(entries.push(entry))[i] == encoding(
            entries,
        )[i],
        place < 8 ==> encoding(entries.push(entry))[encoding(entries).len() as int + place] == byte_at(
            entry.0 as nat,
            place,
        ),
        place < 8 ==> encoding(entries.push(entry))[encoding(entries).len() as int + 8 + place]
            == byte_at(entry.1.len(), place),
        place < 4 && 0 <= i < entry.1.len() ==> encoding(entries.push(entry))[encoding(
            entries,
        ).len() + 16 + 4 * i + place] == byte_at(entry.1[i] as nat, place),
{
    let longer = entries.push(entry);
    lemma_entries_bytes_push(entries, entry);
    lemma_le_bytes_len(entries.len(), 8);
    lemma_le_bytes_len(longer.len(), 8);
    lemma_le_bytes_len(entry.0 as nat, 8);
    lemma_le_bytes_len(entry.1.len(), 8);
    lemma_component_bytes_len(entry.1);
    let start = encoding(entries).len() as int;
    assert(encoding(longer).skip(start) =~= entry_bytes(entry));
    if place < 8 {
        lemma_le_byte(entry.0 as nat, 8, place);
        lemma_le_byte(entry.1.len(), 8, place);
        assert(encoding(longer)[start + place] == entry_bytes(entry)[place as int]);
        assert(encoding(longer)[start + 8 + place] == entry_bytes(entry)[8 + place as int]);
    }
    if place < 4 && 0 <= i < entry.1.len() {
        lemma_component_byte(entry.1, i, place);
        assert(encoding(longer)[start + 16 + 4 * i + place] == entry_bytes(entry)[16 + 4 * i
            + place]);
    }
}

/// Bytes are a list of entries exactly where they begin with the bytes of that list,
/// and no list at all where they begin with none. Lengths are those that eight bytes
/// can say.
pub proof fn law_bytes_are_what_they_begin_with(bytes: Seq<u8>, entries: Seq<(u64, Seq<u32>)>)
    requires
        entries.len() <= u64::MAX,
        forall|i: int| 0 <= i < entries.len() ==> (#[trigger] entries[i]).1.len() <= u64::MAX,
    ensures
        decoded(bytes) == Some(entries) <==> encoding(entries).is_prefix_of(bytes),
        decoded(bytes) is Some ==> encoding(decoded(bytes)->Some_0).is_prefix_of(bytes),
{
    if encoding(entries).is_prefix_of(bytes) {
        lemma_decoded(bytes, entries);
    }
}

/// The bytes of a list are no list any more when some are cut off their end.
pub proof fn law_cut_list_is_none(entries: Seq<(u64, Seq<u32>)>, len: int)
    requires
        entries.len() <= u64::MAX,
        forall|i: int| 0 <= i < entries.len() ==> (#[trigger] entries[i]).1.len() <= u64::MAX,
        0 <= len < encoding(entries).len(),
    ensures
        decoded(encoding(entries).take(len)) is None,
{
    let bytes = encoding(entries);
    let cut = bytes.take(len);
    if decoded(cut) is Some {
        let other = decoded(cut)->Some_0;
        assert(begins_with(cut, other));
        assert(encoding(other) =~= bytes.take(encoding(other).len() as int)) by {
            assert(encoding(other) =~= cut.take(encoding(other).len() as int));
        }
        assert(bytes.is_prefix_of(bytes));
        lemma_one_list(entries, other, bytes);
    }
}

/// Every entry takes sixteen bytes at least.
pub proof fn lemma_encoding_len(entries: Seq<(u64, Seq<u32>)>)
    ensures
        encoding(entries).len() >= 8 + 16 * entries.len(),
{
    lemma_le_bytes_len(entries.len(), 8);
    lemma_entries_bytes_len(entries);
}

proof fn lemma_entries_bytes_len(entries: Seq<(u64, Seq<u32>)>)
    ensures
        entries_bytes(entries).len() >= 16 * entries.len(),
    decreases entries.len(),
{
    if entries.len() > 0 {
        lemma_le_bytes_len(entries.first().0 as nat, 8);
        lemma_le_bytes_len(entries.first().1.len(), 8);
        lemma_entries_bytes_len(entries.drop_first());
    }
}

} // verus!
