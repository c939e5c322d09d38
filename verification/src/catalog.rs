//! Cataloguing how a table encodes every message of a list: for each
//! message the encoded state and the integer weight that stands for its
//! probability.
use crate::ordering::{foldable, folded, MessageList};
use crate::table::ANSTableUniform;
use vstd::prelude::*;
use vstd::seq_lib::{lemma_multiset_commutative, to_multiset_build};

verus! {

/// The product of the frequencies of the symbols of `message`.  Divided by
/// `M` to the power of the length of the message, it is the probability
/// that the source of the table emits `message`.
pub open spec fn weight(table: ANSTableUniform, message: Seq<u8>) -> int
    decreases message.len(),
{
    if message.len() == 0 {
        1
    } else {
        weight(table, message.drop_last()) * table.freq(message.last())
    }
}

/// The weight of every prefix of `message` fits into 64 bits.
pub open spec fn weighable(table: ANSTableUniform, message: Seq<u8>) -> bool {
    forall|i: int| 0 <= i <= message.len() ==> #[trigger] weight(table, message.take(i)) <= u64::MAX
}

/// One line of a catalogue.
#[derive(Clone, Copy, Debug, PartialEq, Eq)]
pub struct CatalogEntry {
    /// The product of the frequencies of the symbols of the message.
    pub weight: u64,
    /// The state after the message has been appended to the state 1.
    pub encoded: u64,
}

/// The state after the symbols of `message` have been appended in turn to
/// the state 1, or `None` where a step cannot be computed.
pub fn try_simple_encode(ansu: &ANSTableUniform, message: &[u8]) -> (r: Option<u64>)
    ensures
        r == if foldable(*ansu, message@, 1) {
            Some(folded(*ansu, message@, 1) as u64)
        } else {
            None
        },
        r matches Some(x) ==> x == folded(*ansu, message@, 1),
{
    let mut x: u64 = 1;
    let mut i: usize = 0;
    assert(message@.take(0) =~= Seq::<u8>::empty());
    while i < message.len()
        invariant
            i <= message@.len(),
            x == folded(*ansu, message@.take(i as int), 1),
            forall|j: int|
                0 <= j < i ==> ansu.step_fits(
                    #[trigger] folded(*ansu, message@.take(j), 1),
                    message@[j],
                    u64::MAX as int,
                ),
        decreases message@.len() - i,
    {
        proof {
            assert(message@.take(i + 1).drop_last() =~= message@.take(i as int));
        }
        match ansu.try_append_encode64(x, message[i]) {
            None => {
                return None;
            },
            Some(next) => {
                x = next;
            },
        }
        i = i + 1;
    }
    assert(message@.take(i as int) =~= message@);
    Some(x)
}

/// The weight of `message`, or `None` where the weight of a prefix leaves
/// 64 bits.
pub fn message_weight(ansu: &ANSTableUniform, message: &[u8]) -> (r: Option<u64>)
    ensures
        r == if weighable(*ansu, message@) {
            Some(weight(*ansu, message@) as u64)
        } else {
            None
        },
        r matches Some(w) ==> w == weight(*ansu, message@),
{
    let mut w: u64 = 1;
    let mut i: usize = 0;
    assert(message@.take(0) =~= Seq::<u8>::empty());
    while i < message.len()
        invariant
            i <= message@.len(),
            w == weight(*ansu, message@.take(i as int)),
            forall|j: int| 0 <= j <= i ==> #[trigger] weight(*ansu, message@.take(j)) <= u64::MAX,
        decreases message@.len() - i,
    {
        let freq: u32 = ansu.frequencies[message[i] as usize];
        proof {
            assert(message@.take(i + 1).drop_last() =~= message@.take(i as int));
            assert(weight(*ansu, message@.take(i + 1)) == w * freq);
        }
        match w.checked_mul(freq as u64) {
            None => {
                return None;
            },
            Some(next) => {
                w = next;
            },
        }
        i = i + 1;
    }
    assert(message@.take(i as int) =~= message@);
    Some(w)
}

/// The catalogue line of `message`, or `None` where its weight or its
/// encoded state cannot be computed within 64 bits.
pub fn catalog_entry(ansu: &ANSTableUniform, message: &[u8]) -> (r: Option<CatalogEntry>)
    ensures
        r is Some <==> foldable(*ansu, message@, 1) && weighable(*ansu, message@),
        r matches Some(entry) ==> entry.weight == weight(*ansu, message@) && entry.encoded
            == folded(*ansu, message@, 1),
{
    match try_simple_encode(ansu, message) {
        None => None,
        Some(encoded) => match message_weight(ansu, message) {
            None => None,
            Some(weight) => Some(CatalogEntry { weight, encoded }),
        },
    }
}

/// The number of messages that `messages` still holds.
pub open spec fn messages_left(messages: MessageList) -> nat {
    if messages.position < messages.limit {
        (messages.limit - messages.position) as nat
    } else {
        0
    }
}

/// Every message that `messages` still holds can be catalogued.
pub open spec fn cataloguable(messages: MessageList, table: ANSTableUniform) -> bool {
    forall|n: int|
        messages.position <= n < messages.limit ==> foldable(
            table,
            #[trigger] messages.message(n as i32),
            1,
        ) && weighable(table, messages.message(n as i32))
}

/// The catalogue lines of the messages that `messages` still holds, in the
/// order of the list.
pub open spec fn catalogue_of(messages: MessageList, table: ANSTableUniform) -> Seq<CatalogEntry> {
    Seq::new(
        messages_left(messages),
        |k: int|
            CatalogEntry {
                weight: weight(table, messages.message((messages.position + k) as i32)) as u64,
                encoded: folded(table, messages.message((messages.position + k) as i32), 1) as u64,
            },
    )
}

/// The catalogue lines of all messages that `messages` still holds, in
/// the order of the list; `None` where one of them cannot be computed.
pub fn catalog_messages(messages: MessageList, ansu: &ANSTableUniform) -> (r: Option<
    Vec<CatalogEntry>,
>)
    requires
        messages.wf(),
    ensures
        r is Some <==> cataloguable(messages, *ansu),
        r matches Some(list) ==> list@ == catalogue_of(messages, *ansu),
{
    let mut cursor = messages;
    let mut list: Vec<CatalogEntry> = Vec::new();
    loop
        invariant
            cursor.wf(),
            cursor.limit == messages.limit,
            cursor.digits == messages.digits,
            cursor.quaternary == messages.quaternary,
            messages.position <= cursor.position,
            cursor.position <= messages.limit || cursor.position == messages.position,
            list@.len() == cursor.position - messages.position,
            forall|n: int|
                messages.position <= n < cursor.position ==> foldable(
                    *ansu,
                    #[trigger] messages.message(n as i32),
                    1,
                ) && weighable(*ansu, messages.message(n as i32)),
            forall|k: int|
                0 <= k < list@.len() ==> (#[trigger] list@[k]).weight == weight(
                    *ansu,
                    messages.message((messages.position + k) as i32),
                ) && list@[k].encoded == folded(
                    *ansu,
                    messages.message((messages.position + k) as i32),
                    1,
                ),
        ensures
            cursor.position >= messages.limit,
        decreases messages.limit - cursor.position,
    {
        let ghost at = cursor.position;
        match cursor.next() {
            None => {
                break ;
            },
            Some(message) => {
                assert(message@ == messages.message(at));
                match catalog_entry(ansu, message.as_slice()) {
                    None => {
                        assert(!(foldable(*ansu, messages.message(at as int as i32), 1)
                            && weighable(*ansu, messages.message(at as int as i32))));
                        return None;
                    },
                    Some(entry) => {
                        list.push(entry);
                    },
                }
            },
        }
    }
    assert(list@ =~= catalogue_of(messages, *ansu));
    Some(list)
}

/// The catalogue of all messages that `messages` still holds, sorted by
/// encoded state; `None` where a message cannot be catalogued.
pub fn catalog_encoding_results(messages: MessageList, ansu: &ANSTableUniform) -> (r: Option<
    Vec<CatalogEntry>,
>)
    requires
        messages.wf(),
    ensures
        r is Some <==> cataloguable(messages, *ansu),
        r matches Some(list) ==> {
            &&& list@.to_multiset() == catalogue_of(messages, *ansu).to_multiset()
            &&& ascending(list@)
        },
{
    match catalog_messages(messages, ansu) {
        None => None,
        Some(list) => Some(sort_catalog(list)),
    }
}

/// The number of messages that the first of `workers` workers takes when
/// `remaining` messages are shared out evenly: the quotient rounded up.
pub fn chunk_len(remaining: usize, workers: usize) -> (r: usize)
    requires
        workers >= 1,
        remaining + workers <= usize::MAX,
    ensures
        r == (remaining + workers - 1) / (workers as int),
        r <= remaining,
        remaining > 0 ==> r >= 1,
        r * workers >= remaining,
{
    let r: usize = (remaining + workers - 1) / workers;
    proof {
        let n = remaining as int;
        let w = workers as int;
        let q = (n + w - 1) / w;
        vstd::arithmetic::div_mod::lemma_fundamental_div_mod(n + w - 1, w);
        vstd::arithmetic::div_mod::lemma_mod_bound(n + w - 1, w);
        let m = (n + w - 1) % w;
        assert(q * w >= n && q <= n && (n > 0 ==> q >= 1)) by (nonlinear_arith)
            requires
                n + w - 1 == w * q + m,
                0 <= m < w,
                w >= 1,
                n >= 0,
        ;
    }
    r
}

/// The sizes of the contiguous parts into which `total` messages are split
/// for at most `workers` workers: each part is the even share, rounded up,
/// of what is left for the workers that are left.
pub fn partition_sizes(total: usize, workers: usize) -> (sizes: Vec<usize>)
    requires
        workers >= 1,
        total + workers <= usize::MAX,
    ensures
        sizes@.len() <= workers,
        size_sum(sizes@) == total,
        forall|k: int| 0 <= k < sizes@.len() ==> #[trigger] sizes@[k] >= 1,
        forall|k: int|
            0 <= k < sizes@.len() ==> #[trigger] sizes@[k] == (total - size_sum(sizes@.take(k))
                + (workers - k) - 1) / (workers - k),
{
    let mut sizes: Vec<usize> = Vec::new();
    let mut left: usize = total;
    let mut free: usize = workers;
    assert(sizes@.take(0) =~= sizes@);
    while left > 0
        invariant
            free + sizes@.len() == workers,
            left > 0 ==> free >= 1,
            left + size_sum(sizes@) == total,
            total + workers <= usize::MAX,
            size_sum(sizes@) >= 0,
            forall|k: int| 0 <= k < sizes@.len() ==> #[trigger] sizes@[k] >= 1,
            forall|k: int|
                0 <= k < sizes@.len() ==> #[trigger] sizes@[k] == (total - size_sum(
                    sizes@.take(k),
                ) + (workers - k) - 1) / (workers - k),
        decreases left,
    {
        let ghost before = sizes@;
        let quantum: usize = chunk_len(left, free);
        sizes.push(quantum);
        proof {
            assert(sizes@.drop_last() =~= before);
            assert(sizes@.take(before.len() as int) =~= before);
            assert forall|k: int| 0 <= k < sizes@.len() implies #[trigger] sizes@[k] == (total
                - size_sum(sizes@.take(k)) + (workers - k) - 1) / (workers - k) by {
                if k < before.len() {
                    assert(sizes@.take(k) =~= before.take(k));
                }
            }
            if free == 1 {
                assert(quantum == left);
            }
        }
        left = left - quantum;
        free = free - 1;
    }
    sizes
}

/// The sum of the entries of `sizes`.
pub open spec fn size_sum(sizes: Seq<usize>) -> int
    decreases sizes.len(),
{
    if sizes.len() == 0 {
        0
    } else {
        size_sum(sizes.drop_last()) + sizes.last()
    }
}


/// The lines of `list` are in the order of their encoded states.
pub open spec fn ascending(list: Seq<CatalogEntry>) -> bool {
    forall|i: int, j: int| 0 <= i <= j < list.len() ==> list[i].encoded <= list[j].encoded
}

/// Merges two catalogues that are in the order of their encoded states
/// into one that is.
pub fn merge_catalogs(first: &Vec<CatalogEntry>, second: &Vec<CatalogEntry>) -> (r: Vec<
    CatalogEntry,
>)
    requires
        ascending(first@),
        ascending(second@),
    ensures
        ascending(r@),
        r@.to_multiset() == first@.to_multiset().add(second@.to_multiset()),
        r@.len() == first@.len() + second@.len(),
{
    let mut merged: Vec<CatalogEntry> = Vec::new();
    let mut i: usize = 0;
    let mut j: usize = 0;
    proof {
        assert(first@.take(0) =~= Seq::<CatalogEntry>::empty());
        assert(second@.take(0) =~= Seq::<CatalogEntry>::empty());
        let none = Seq::<CatalogEntry>::empty();
        lemma_multiset_commutative(none, none);
        assert(none + none =~= none);
        assert(merged@ =~= none);
    }
    while i < first.len() || j < second.len()
        invariant
            i <= first@.len(),
            j <= second@.len(),
            merged@.len() == i + j,
            ascending(first@),
            ascending(second@),
            ascending(merged@),
            merged@.to_multiset() == first@.take(i as int).to_multiset().add(
                second@.take(j as int).to_multiset(),
            ),
            forall|k: int|
                0 <= k < merged@.len() && i < first@.len() ==> merged@[k].encoded
                    <= first@[i as int].encoded,
            forall|k: int|
                0 <= k < merged@.len() && j < second@.len() ==> merged@[k].encoded
                    <= second@[j as int].encoded,
        decreases first@.len() - i + second@.len() - j,
    {
        let ghost before = merged@;
        let from_first: bool = if j >= second.len() {
            true
        } else if i >= first.len() {
            false
        } else {
            first[i].encoded <= second[j].encoded
        };
        if from_first {
            let entry = first[i];
            merged.push(entry);
            proof {
                to_multiset_build(before, entry);
                to_multiset_build(first@.take(i as int), entry);
                assert(first@.take(i + 1) =~= first@.take(i as int).push(entry));
                assert(merged@.to_multiset() =~= first@.take(i + 1).to_multiset().add(
                    second@.take(j as int).to_multiset(),
                ));
            }
            i = i + 1;
        } else {
            let entry = second[j];
            merged.push(entry);
            proof {
                to_multiset_build(before, entry);
                to_multiset_build(second@.take(j as int), entry);
                assert(second@.take(j + 1) =~= second@.take(j as int).push(entry));
                assert(merged@.to_multiset() =~= first@.take(i as int).to_multiset().add(
                    second@.take(j + 1).to_multiset(),
                ));
            }
            j = j + 1;
        }
    }
    proof {
        assert(first@.take(i as int) =~= first@);
        assert(second@.take(j as int) =~= second@);
    }
    merged
}

/// Puts a catalogue into the order of the encoded states.
pub fn sort_catalog(list: Vec<CatalogEntry>) -> (r: Vec<CatalogEntry>)
    ensures
        ascending(r@),
        r@.to_multiset() == list@.to_multiset(),
        r@.len() == list@.len(),
    decreases list@.len(),
{
    if list.len() <= 1 {
        return list;
    }
    let ghost whole = list@;
    let mut left = list;
    let middle: usize = left.len() / 2;
    let right = left.split_off(middle);
    proof {
        assert(whole =~= left@ + right@);
        lemma_multiset_commutative(left@, right@);
    }
    let left_sorted = sort_catalog(left);
    let right_sorted = sort_catalog(right);
    merge_catalogs(&left_sorted, &right_sorted)
}

} // verus!
