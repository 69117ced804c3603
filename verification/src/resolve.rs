//! Resolution: from the records that a store returned to one overlay.

use crate::error::{ResolutionError, ResolutionFault};
use crate::object::{
    all_text, decode_object, flatten_object, json_object, lemma_member_bindings_of_text,
    member_texts, object_bindings,
};
use crate::order::{
    indices, is_rearrangement, lemma_merge_order_rearranges, lemma_path_rank_tells_names_apart,
    lemma_rising_ranks_fix_the_sequence, merge_order_of, merges_before, name_ranks, path_rank,
    record_order,
};
use crate::overlay::{
    binding_keys, bindings_map, key_order, lemma_binding_keys_append, lemma_bindings_map_domain,
    lemma_listed_append, lemma_overlaid_append, lemma_overlaid_is_union, Overlay,
};
use vstd::prelude::*;

verus! {

/// One record as the store returned it: the name of a parameter and its raw
/// value, which is expected to be the text of a JSON object. A store may
/// return a record without a value.
#[derive(Debug)]
pub struct Record {
    pub name: String,
    pub value: Option<String>,
}

/// A [`Record`] as text.
pub struct RecordText {
    pub name: Seq<char>,
    pub value: Option<Seq<char>>,
}

impl View for Record {
    type V = RecordText;

    open spec fn view(&self) -> RecordText {
        RecordText { name: self.name@, value: self.value.deep_view() }
    }
}

impl DeepView for Record {
    type V = RecordText;

    open spec fn deep_view(&self) -> RecordText {
        self@
    }
}

/// A record whose value has been read: the members of its object, each with
/// its text where it is a string, or `None` where the value was no object.
#[derive(Debug)]
pub struct DecodedRecord {
    pub name: String,
    pub object: Option<Vec<(String, Option<String>)>>,
}

/// A [`DecodedRecord`] as text.
pub struct DecodedText {
    pub name: Seq<char>,
    pub object: Option<Seq<(Seq<char>, Option<Seq<char>>)>>,
}

impl View for DecodedRecord {
    type V = DecodedText;

    open spec fn view(&self) -> DecodedText {
        DecodedText { name: self.name@, object: self.object.deep_view() }
    }
}

impl DeepView for DecodedRecord {
    type V = DecodedText;

    open spec fn deep_view(&self) -> DecodedText {
        self@
    }
}

/// What a record decodes to. A record without a value holds no object, as
/// one whose value is no JSON object does.
pub open spec fn decoded(record: RecordText) -> DecodedText {
    DecodedText {
        name: record.name,
        object: match record.value {
            Some(text) => json_object(text),
            None => None,
        },
    }
}

/// What each of the records decodes to.
pub open spec fn decoded_all(records: Seq<RecordText>) -> Seq<DecodedText> {
    Seq::new(records.len(), |i: int| decoded(records[i]))
}

/// The names of the records.
pub open spec fn names_of(records: Seq<DecodedText>) -> Seq<Seq<char>> {
    Seq::new(records.len(), |i: int| records[i].name)
}

/// The bindings that merging the records at `order` writes, one record after
/// another, or the fault of the first of them that is at fault.
pub open spec fn written(records: Seq<DecodedText>, order: Seq<int>) -> Result<
    Seq<(Seq<char>, Seq<char>)>,
    ResolutionFault,
>
    decreases order.len(),
{
    if order.len() == 0 {
        Ok(Seq::empty())
    } else {
        match written(records, order.drop_last()) {
            Err(fault) => Err(fault),
            Ok(log) => match object_bindings(
                records[order.last()].name,
                records[order.last()].object,
            ) {
                Err(fault) => Err(fault),
                Ok(bindings) => Ok(log + bindings),
            },
        }
    }
}

/// What resolving `records` for the requested `paths` comes to: the bindings
/// written, in sequence, or the fault that ends the resolution.
pub open spec fn resolution(paths: Seq<Seq<char>>, records: Seq<DecodedText>) -> Result<
    Seq<(Seq<char>, Seq<char>)>,
    ResolutionFault,
> {
    if records.len() == 0 {
        Err(ResolutionFault::NotFound)
    } else {
        written(records, record_order(paths, names_of(records)))
    }
}

/// Whether `result` is what `wanted` asks for: the overlay that the written
/// bindings amount to, with its keys in the sequence in which they were
/// first written, or the error that stands for the fault.
pub open spec fn resolves_to(
    result: Result<Overlay, ResolutionError>,
    wanted: Result<Seq<(Seq<char>, Seq<char>)>, ResolutionFault>,
) -> bool {
    match wanted {
        Ok(bindings) => {
            &&& result matches Ok(overlay)
            &&& overlay@ == bindings_map(bindings)
            &&& overlay.keys() == key_order(bindings)
        },
        Err(fault) => result matches Err(error) && error@ == fault,
    }
}

/// A fault among the first records merged is the fault of the whole merge.
pub proof fn lemma_written_fails_early(records: Seq<DecodedText>, order: Seq<int>, n: int)
    requires
        0 <= n <= order.len(),
        written(records, order.take(n)) is Err,
    ensures
        written(records, order) == written(records, order.take(n)),
    decreases order.len() - n,
{
    if n < order.len() {
        assert(order.take(n + 1).drop_last() =~= order.take(n));
        lemma_written_fails_early(records, order, n + 1);
    } else {
        assert(order.take(n) =~= order);
    }
}

/// Merging depends on the records met and on their sequence, not on where
/// they stand among the records returned.
pub proof fn lemma_written_same_records(
    one: Seq<DecodedText>,
    one_order: Seq<int>,
    other: Seq<DecodedText>,
    other_order: Seq<int>,
)
    requires
        one_order.len() == other_order.len(),
        forall|k: int|
            0 <= k < one_order.len() ==> one[#[trigger] one_order[k]] == other[other_order[k]],
    ensures
        written(one, one_order) == written(other, other_order),
    decreases one_order.len(),
{
    if one_order.len() > 0 {
        let last = one_order.len() - 1;
        assert(one[one_order[last]] == other[other_order[last]]);
        assert forall|k: int| 0 <= k < one_order.drop_last().len() implies one[
            #[trigger] one_order.drop_last()[k]] == other[other_order.drop_last()[k]] by {
            assert(one[one_order[k]] == other[other_order[k]]);
        }
        lemma_written_same_records(one, one_order.drop_last(), other, other_order.drop_last());
    }
}

/// The same records, taken in the sequence that `arrangement` gives.
pub open spec fn rearranged(records: Seq<DecodedText>, arrangement: Seq<int>) -> Seq<DecodedText> {
    Seq::new(arrangement.len(), |i: int| records[arrangement[i]])
}

/// The sequence in which the store returns its records does not matter,
/// where no two of them stand at the same place among the requested paths:
/// however the records are rearranged, resolution comes to the same. By
/// `lemma_requested_names_stand_apart` that is so wherever each record has a
/// name of its own that was asked for.
pub proof fn lemma_response_sequence_is_immaterial(
    paths: Seq<Seq<char>>,
    records: Seq<DecodedText>,
    arrangement: Seq<int>,
)
    requires
        name_ranks(paths, names_of(records)).no_duplicates(),
        is_rearrangement(arrangement, records.len()),
    ensures
        resolution(paths, rearranged(records, arrangement)) == resolution(paths, records),
{
    let moved = rearranged(records, arrangement);
    let count = records.len();
    let ranks = name_ranks(paths, names_of(records));
    let moved_ranks = name_ranks(paths, names_of(moved));
    let order = record_order(paths, names_of(records));
    let moved_order = record_order(paths, names_of(moved));
    lemma_merge_order_rearranges(paths, names_of(records));
    lemma_merge_order_rearranges(paths, names_of(moved));
    assert forall|i: int| 0 <= i < count implies #[trigger] moved_ranks[i]
        == ranks[arrangement[i]] by {}
    let back = Seq::new(count, |k: int| arrangement[moved_order[k]]);
    assert forall|a: int, b: int| 0 <= a < b < count implies ranks[#[trigger] order[a]]
        < ranks[#[trigger] order[b]] by {
        assert(merges_before(ranks, order[a], order[b]));
        assert(order[a] != order[b]);
    }
    assert forall|a: int, b: int| 0 <= a < b < count implies ranks[#[trigger] back[a]]
        < ranks[#[trigger] back[b]] by {
        let x = moved_order[a];
        let y = moved_order[b];
        assert(merges_before(moved_ranks, x, y));
        assert(x != y);
        assert(0 <= x < count && 0 <= y < count);
        assert(arrangement[x] != arrangement[y]);
        assert(moved_ranks[x] == ranks[arrangement[x]]);
        assert(moved_ranks[y] == ranks[arrangement[y]]);
    }
    assert forall|j: int| order.contains(j) <==> back.contains(j) by {
        if back.contains(j) {
            let k = choose|k: int| 0 <= k < back.len() && back[k] == j;
            assert(0 <= moved_order[k] < count);
            assert(0 <= arrangement[moved_order[k]] < count);
        }
        if order.contains(j) {
            assert(arrangement.contains(j));
            let m = choose|m: int| 0 <= m < arrangement.len() && arrangement[m] == j;
            assert(moved_order.contains(m));
            let k = choose|k: int| 0 <= k < moved_order.len() && moved_order[k] == m;
            assert(back[k] == j);
        }
    }
    lemma_rising_ranks_fix_the_sequence(ranks, order, back);
    assert forall|k: int| 0 <= k < order.len() implies records[#[trigger] order[k]]
        == moved[moved_order[k]] by {
        assert(order[k] == back[k]);
        assert(0 <= moved_order[k] < count);
    }
    lemma_written_same_records(records, order, moved, moved_order);
}

/// Whether the value of the record is an object whose members all hold text.
pub open spec fn holds_text_only(record: DecodedText) -> bool {
    record.object matches Some(members) && all_text(members)
}

/// What the members of the record amount to, taken by themselves.
pub open spec fn member_map(record: DecodedText) -> Map<Seq<char>, Seq<char>> {
    match record.object {
        Some(members) => bindings_map(member_texts(members)),
        None => Map::empty(),
    }
}

/// Whether the record has a member with this key.
pub open spec fn has_key(record: DecodedText, key: Seq<char>) -> bool {
    record.object matches Some(members) && exists|m: int|
        0 <= m < members.len() && (#[trigger] members[m]).0 == key
}

/// Whether, of the records that have `key`, the one at `i` stands last among
/// the requested paths.
pub open spec fn stands_last(
    paths: Seq<Seq<char>>,
    records: Seq<DecodedText>,
    i: int,
    key: Seq<char>,
) -> bool {
    forall|j: int|
        0 <= j < records.len() && #[trigger] has_key(records[j], key) ==> path_rank(
            paths,
            records[j].name,
        ) <= path_rank(paths, records[i].name)
}

/// A record binds the keys of its members, and no other.
pub proof fn lemma_member_map_domain(record: DecodedText, key: Seq<char>)
    ensures
        member_map(record).contains_key(key) <==> has_key(record, key),
{
    if let Some(members) = record.object {
        let texts = member_texts(members);
        lemma_bindings_map_domain(texts, key);
        if binding_keys(texts).contains(key) {
            let m = choose|m: int| 0 <= m < texts.len() && binding_keys(texts)[m] == key;
            assert(members[m].0 == key);
        }
        if has_key(record, key) {
            let m = choose|m: int| 0 <= m < members.len() && (#[trigger] members[m]).0 == key;
            assert(binding_keys(texts)[m] == key);
        }
    }
}

/// The last turn, among those at `order`, of a record that has `key`, or -1
/// where none of them has it.
spec fn last_turn(records: Seq<DecodedText>, order: Seq<int>, key: Seq<char>) -> int
    decreases order.len(),
{
    if order.len() == 0 {
        -1
    } else if has_key(records[order.last()], key) {
        order.len() - 1
    } else {
        last_turn(records, order.drop_last(), key)
    }
}

/// The last turn is a turn of a record that has the key, and no later turn
/// is.
proof fn lemma_last_turn(records: Seq<DecodedText>, order: Seq<int>, key: Seq<char>)
    ensures
        -1 <= last_turn(records, order, key) < order.len(),
        last_turn(records, order, key) >= 0 ==> has_key(
            records[order[last_turn(records, order, key)]],
            key,
        ),
        forall|k: int|
            last_turn(records, order, key) < k < order.len() ==> !has_key(
                records[#[trigger] order[k]],
                key,
            ),
    decreases order.len(),
{
    if order.len() > 0 && !has_key(records[order.last()], key) {
        lemma_last_turn(records, order.drop_last(), key);
        assert forall|k: int| last_turn(records, order, key) < k < order.len() implies !has_key(
            records[#[trigger] order[k]],
            key,
        ) by {
            if k < order.len() - 1 {
                assert(order.drop_last()[k] == order[k]);
            }
        }
    }
}

/// Where every record merged holds text only, the merge does not fail. What
/// it writes binds a key exactly when one of the records has it, and binds
/// it to what the last of those records, in the sequence of the merge, holds.
proof fn lemma_written_of_text(records: Seq<DecodedText>, order: Seq<int>, key: Seq<char>)
    requires
        forall|k: int| 0 <= k < order.len() ==> holds_text_only(records[#[trigger] order[k]]),
    ensures
        written(records, order) matches Ok(log) && {
            let turn = last_turn(records, order, key);
            &&& bindings_map(log).contains_key(key) <==> turn >= 0
            &&& turn >= 0 ==> bindings_map(log)[key] == member_map(records[order[turn]])[key]
        },
    decreases order.len(),
{
    if order.len() > 0 {
        let front = order.drop_last();
        let record = records[order.last()];
        assert forall|k: int| 0 <= k < front.len() implies holds_text_only(
            records[#[trigger] front[k]],
        ) by {
            assert(front[k] == order[k]);
        }
        lemma_written_of_text(records, front, key);
        assert(holds_text_only(records[order[order.len() - 1]]));
        let members = record.object->0;
        lemma_member_bindings_of_text(members);
        let log = written(records, front)->Ok_0;
        let added = member_texts(members);
        assert(written(records, order) == Ok::<_, ResolutionFault>(log + added));
        lemma_overlaid_append(Map::empty(), log, added);
        lemma_overlaid_is_union(bindings_map(log), added);
        lemma_member_map_domain(record, key);
        lemma_last_turn(records, front, key);
    }
}

/// The later path wins. Let every record stand under a name of its own
/// that was asked for, and let every value be an object whose members all
/// hold text. Then resolution succeeds; the overlay binds exactly the keys
/// that the records have; and each key is bound to what it holds in the
/// record whose path stands last among the requested paths, where a path that
/// is listed twice counts where it is listed last.
pub proof fn lemma_later_path_wins(
    paths: Seq<Seq<char>>,
    records: Seq<DecodedText>,
    key: Seq<char>,
)
    requires
        records.len() > 0,
        names_of(records).no_duplicates(),
        forall|i: int| 0 <= i < records.len() ==> paths.contains(#[trigger] records[i].name),
        forall|i: int| 0 <= i < records.len() ==> holds_text_only(#[trigger] records[i]),
    ensures
        resolution(paths, records) matches Ok(written) && {
            let merged = bindings_map(written);
            &&& merged.contains_key(key) <==> exists|i: int|
                0 <= i < records.len() && #[trigger] has_key(records[i], key)
            &&& forall|i: int|
                0 <= i < records.len() && #[trigger] has_key(records[i], key) && stands_last(
                    paths,
                    records,
                    i,
                    key,
                ) ==> merged[key] == member_map(records[i])[key]
        },
{
    let names = names_of(records);
    let ranks = name_ranks(paths, names);
    let order = record_order(paths, names);
    lemma_merge_order_rearranges(paths, names);
    assert forall|k: int| 0 <= k < order.len() implies holds_text_only(
        records[#[trigger] order[k]],
    ) by {
        assert(0 <= order[k] < records.len());
    }
    lemma_written_of_text(records, order, key);
    lemma_last_turn(records, order, key);
    let merged = bindings_map(written(records, order)->Ok_0);
    let turn = last_turn(records, order, key);
    if exists|i: int| 0 <= i < records.len() && #[trigger] has_key(records[i], key) {
        let i = choose|i: int| 0 <= i < records.len() && #[trigger] has_key(records[i], key);
        assert(order.contains(i));
        let k = choose|k: int| 0 <= k < order.len() && order[k] == i;
        assert(k <= turn);
    }
    if turn >= 0 {
        assert(0 <= order[turn] < records.len());
        assert(has_key(records[order[turn]], key));
    }
    assert forall|i: int|
        0 <= i < records.len() && #[trigger] has_key(records[i], key) && stands_last(
            paths,
            records,
            i,
            key,
        ) implies merged[key] == member_map(records[i])[key] by {
        assert(order.contains(i));
        let k = choose|k: int| 0 <= k < order.len() && order[k] == i;
        assert(k <= turn);
        let last = order[turn];
        assert(0 <= last < records.len());
        if k < turn {
            assert(merges_before(ranks, order[k], order[turn]));
            assert(has_key(records[last], key));
            assert(ranks[last] == path_rank(paths, records[last].name));
            assert(ranks[i] == path_rank(paths, records[i].name));
            assert(paths.contains(records[i].name));
            lemma_path_rank_tells_names_apart(paths, records[i].name, records[last].name);
            assert(names[i] == names[last]);
        }
    }
}

/// Resolution is repeatable: whatever meets the contract of [`resolve`] for
/// given paths and records is the same overlay, with the same keys in the
/// same sequence, or the same error. Two calls on an unchanged store cannot
/// differ.
pub proof fn lemma_resolution_is_repeatable(
    paths: Seq<Seq<char>>,
    records: Seq<RecordText>,
    first: Result<Overlay, ResolutionError>,
    second: Result<Overlay, ResolutionError>,
)
    requires
        resolves_to(first, resolution(paths, decoded_all(records))),
        resolves_to(second, resolution(paths, decoded_all(records))),
    ensures
        match (first, second) {
            (Ok(one), Ok(other)) => one@ == other@ && one.keys() == other.keys(),
            (Err(one), Err(other)) => one@ == other@,
            _ => false,
        },
{
}

/// Reads the value of a record. Where the record has no value, nothing is
/// read and it holds no object.
pub fn decode_record(record: &Record) -> (read: DecodedRecord)
    ensures
        read@ == decoded(record@),
{
    let object = match &record.value {
        Some(text) => decode_object(text.as_str()),
        None => None,
    };
    DecodedRecord { name: record.name.clone(), object }
}

/// Resolves records whose values have been read.
///
/// Fails with `NotFound` when there is no record. Otherwise the records are
/// merged in the sequence of the requested paths; the first record in that
/// sequence that is no object, or holds a member that is no string, ends the
/// resolution with its fault. Where none does, every binding of every record
/// is written, and a later one replaces an earlier one for the same key.
pub fn resolve_decoded(paths: &Vec<String>, records: &Vec<DecodedRecord>) -> (result: Result<
    Overlay,
    ResolutionError,
>)
    ensures
        resolves_to(result, resolution(paths.deep_view(), records.deep_view())),
{
    if records.len() == 0 {
        return Err(ResolutionError::NotFound);
    }
    let ghost all = records.deep_view();
    let mut names: Vec<String> = Vec::new();
    let mut i: usize = 0;
    assert(names.deep_view() =~= names_of(all).take(0));
    while i < records.len()
        invariant
            i <= records.len(),
            names.len() == i,
            all == records.deep_view(),
            names.deep_view() == names_of(all).take(i as int),
        decreases records.len() - i,
    {
        let ghost before = names.deep_view();
        names.push(records[i].name.clone());
        assert(names.deep_view() =~= before.push(all[i as int].name));
        assert(names.deep_view() =~= names_of(all).take(i + 1));
        i += 1;
    }
    assert(names.deep_view() =~= names_of(all));
    let order = merge_order_of(paths, &names);
    let ghost turns = indices(order@);
    proof {
        lemma_merge_order_rearranges(paths.deep_view(), names_of(all));
        assert forall|k: int| 0 <= k < turns.len() implies 0 <= #[trigger] turns[k]
            < all.len() by {
            assert(turns.contains(turns[k]));
        }
    }
    let mut overlay = Overlay::new();
    let ghost mut log: Seq<(Seq<char>, Seq<char>)> = Seq::empty();
    let mut k: usize = 0;
    assert(turns.take(0) =~= Seq::empty());
    while k < order.len()
        invariant
            k <= order.len(),
            all == records.deep_view(),
            turns == indices(order@),
            turns == record_order(paths.deep_view(), names_of(all)),
            all.len() > 0,
            forall|k: int| 0 <= k < turns.len() ==> 0 <= #[trigger] turns[k] < all.len(),
            written(all, turns.take(k as int)) == Ok::<_, ResolutionFault>(log),
            overlay@ == bindings_map(log),
            overlay.keys() == key_order(log),
        decreases order.len() - k,
    {
        let j = order[k];
        proof {
            assert(turns[k as int] == j);
            assert(turns.take(k + 1).drop_last() =~= turns.take(k as int));
            assert(turns.take(k + 1).last() == j);
        }
        match flatten_object(&records[j].name, &records[j].object) {
            Err(error) => {
                proof {
                    lemma_written_fails_early(all, turns, k + 1);
                }
                return Err(error);
            },
            Ok(bindings) => {
                proof {
                    lemma_overlaid_append(Map::empty(), log, bindings.deep_view());
                    lemma_binding_keys_append(log, bindings.deep_view());
                    lemma_listed_append(
                        Seq::empty(),
                        binding_keys(log),
                        binding_keys(bindings.deep_view()),
                    );
                    log = log + bindings.deep_view();
                }
                overlay.extend(&bindings);
            },
        }
        k += 1;
    }
    assert(turns.take(k as int) =~= turns);
    Ok(overlay)
}

/// Resolves the records that a store returned for the requested `paths`.
///
/// Each value is read as JSON; the rest is [`resolve_decoded`].
pub fn resolve(paths: &Vec<String>, records: &Vec<Record>) -> (result: Result<
    Overlay,
    ResolutionError,
>)
    ensures
        resolves_to(result, resolution(paths.deep_view(), decoded_all(records.deep_view()))),
{
    let mut read: Vec<DecodedRecord> = Vec::new();
    let mut i: usize = 0;
    assert(read.deep_view() =~= decoded_all(records.deep_view()).take(0));
    while i < records.len()
        invariant
            i <= records.len(),
            read.len() == i,
            read.deep_view() == decoded_all(records.deep_view()).take(i as int),
        decreases records.len() - i,
    {
        let ghost before = read.deep_view();
        let next = decode_record(&records[i]);
        assert(next@ == decoded(records.deep_view()[i as int]));
        read.push(next);
        assert(read.deep_view() =~= before.push(decoded(records.deep_view()[i as int])));
        assert(read.deep_view() =~= decoded_all(records.deep_view()).take(i + 1));
        i += 1;
    }
    assert(read.deep_view() =~= decoded_all(records.deep_view()));
    resolve_decoded(paths, &read)
}

} // verus!
