//! What holds of every exported text: one declaration for each signal, and one time marker for
//! each time at which a change is made, in ascending order.

use crate::ident::lemma_identifier_injective;
use crate::parser::spec_parse;
use crate::parser_proofs::lemma_parse_sound;
use crate::scope::{lemma_scope_keys, spec_scope_key, spec_scope_keys, spec_scope_names};
use crate::timeline::{has_time, lemma_timeline, spec_timeline, strictly_ascending};
use crate::vcd::{
    change_items, declaration_items, header_items, items_at, scope_block, scope_blocks,
    scope_closes, scope_opens, spec_vcd_items, time_blocks, var_item, var_items, VcdItem,
};
use crate::waveform::{ChangeView, SignalView, WaveformView};
use vstd::prelude::*;

verus! {

/// The number of items of `items` of which `wanted` holds.
pub open spec fn count_where(items: Seq<VcdItem>, wanted: spec_fn(VcdItem) -> bool) -> nat
    decreases items.len(),
{
    if items.len() == 0 {
        0
    } else {
        count_where(items.drop_last(), wanted) + if wanted(items.last()) {
            1nat
        } else {
            0nat
        }
    }
}

/// Holds of the declarations of variables.
pub open spec fn is_var() -> spec_fn(VcdItem) -> bool {
    |item: VcdItem| item is Var
}

/// Holds of the item `wanted` alone.
pub open spec fn is_item(wanted: VcdItem) -> spec_fn(VcdItem) -> bool {
    |item: VcdItem| item == wanted
}

/// The times of the time markers among `items`, in their order.
pub open spec fn time_markers(items: Seq<VcdItem>) -> Seq<u64>
    decreases items.len(),
{
    if items.len() == 0 {
        Seq::empty()
    } else {
        let before = time_markers(items.drop_last());
        match items.last() {
            VcdItem::Time(time) => before.push(time),
            _ => before,
        }
    }
}

/// A count over two runs of items is the sum of the counts over each.
pub proof fn lemma_count_add(
    first: Seq<VcdItem>,
    second: Seq<VcdItem>,
    wanted: spec_fn(VcdItem) -> bool,
)
    ensures
        count_where(first + second, wanted) == count_where(first, wanted) + count_where(
            second,
            wanted,
        ),
    decreases second.len(),
{
    if second.len() == 0 {
        assert(first + second =~= first);
    } else {
        lemma_count_add(first, second.drop_last(), wanted);
        assert((first + second).drop_last() =~= first + second.drop_last());
    }
}

/// A count is 0 where what is wanted holds of no item.
pub proof fn lemma_count_none(items: Seq<VcdItem>, wanted: spec_fn(VcdItem) -> bool)
    requires
        forall|i: int| 0 <= i < items.len() ==> !wanted(#[trigger] items[i]),
    ensures
        count_where(items, wanted) == 0,
    decreases items.len(),
{
    if items.len() > 0 {
        let shorter = items.drop_last();
        lemma_count_none(shorter, wanted);
    }
}

/// The time markers of two runs of items are those of the first, then those of the second.
pub proof fn lemma_time_markers_add(first: Seq<VcdItem>, second: Seq<VcdItem>)
    ensures
        time_markers(first + second) == time_markers(first) + time_markers(second),
    decreases second.len(),
{
    if second.len() == 0 {
        assert(first + second =~= first);
    } else {
        lemma_time_markers_add(first, second.drop_last());
        assert((first + second).drop_last() =~= first + second.drop_last());
    }
}

/// There is no time marker among items none of which is one.
pub proof fn lemma_time_markers_none(items: Seq<VcdItem>)
    requires
        forall|i: int| 0 <= i < items.len() ==> !((#[trigger] items[i]) is Time),
    ensures
        time_markers(items) == Seq::<u64>::empty(),
    decreases items.len(),
{
    if items.len() > 0 {
        let shorter = items.drop_last();
        lemma_time_markers_none(shorter);
    }
}

/// The declarations under a scope key are declarations of variables, each of a signal with
/// that key.
pub proof fn lemma_var_items_shape(signals: Seq<SignalView>, key: Seq<char>, upto: nat)
    requires
        upto <= signals.len(),
    ensures
        var_items(signals, key, upto).len() <= upto,
        forall|i: int|
            0 <= i < var_items(signals, key, upto).len() ==> (#[trigger] var_items(
                signals,
                key,
                upto,
            )[i]) is Var,
    decreases upto,
{
    if upto > 0 {
        lemma_var_items_shape(signals, key, (upto - 1) as nat);
    }
}

/// The items of the changes at a time are changes, none a declaration or a time marker.
pub proof fn lemma_items_at_shape(signals: Seq<SignalView>, changes: Seq<ChangeView>, time: u64)
    ensures
        forall|i: int|
            0 <= i < items_at(signals, changes, time).len() ==> {
                let item = #[trigger] items_at(signals, changes, time)[i];
                item is Scalar || item is Vector
            },
    decreases changes.len(),
{
    if changes.len() > 0 {
        lemma_items_at_shape(signals, changes.drop_last(), time);
    }
}

/// The number of those of the first `upto` signals whose scope key is `key` and of whose
/// declaration `wanted` holds.
pub open spec fn tally(
    signals: Seq<SignalView>,
    key: Seq<char>,
    upto: nat,
    wanted: spec_fn(VcdItem) -> bool,
) -> nat
    decreases upto,
{
    if upto == 0 {
        0
    } else {
        tally(signals, key, (upto - 1) as nat, wanted) + if spec_scope_key(signals[upto - 1].path)
            == key && wanted(var_item(signals, upto - 1)) {
            1nat
        } else {
            0nat
        }
    }
}

/// The number of those of the first `upto` signals of whose declaration `wanted` holds.
pub open spec fn hits(signals: Seq<SignalView>, upto: nat, wanted: spec_fn(VcdItem) -> bool) -> nat
    decreases upto,
{
    if upto == 0 {
        0
    } else {
        hits(signals, (upto - 1) as nat, wanted) + if wanted(var_item(signals, upto - 1)) {
            1nat
        } else {
            0nat
        }
    }
}

/// The number of times `key` occurs in `keys`.
pub open spec fn key_count(keys: Seq<Seq<char>>, key: Seq<char>) -> nat
    decreases keys.len(),
{
    if keys.len() == 0 {
        0
    } else {
        key_count(keys.drop_last(), key) + if keys.last() == key {
            1nat
        } else {
            0nat
        }
    }
}

/// The sum, over `keys`, of the tallies of the first `upto` signals.
pub open spec fn total(
    signals: Seq<SignalView>,
    keys: Seq<Seq<char>>,
    upto: nat,
    wanted: spec_fn(VcdItem) -> bool,
) -> nat
    decreases keys.len(),
{
    if keys.len() == 0 {
        0
    } else {
        total(signals, keys.drop_last(), upto, wanted) + tally(signals, keys.last(), upto, wanted)
    }
}

/// Counting among the declarations under a key is tallying the signals with that key.
pub proof fn lemma_var_items_count(
    signals: Seq<SignalView>,
    key: Seq<char>,
    upto: nat,
    wanted: spec_fn(VcdItem) -> bool,
)
    ensures
        count_where(var_items(signals, key, upto), wanted) == tally(signals, key, upto, wanted),
    decreases upto,
{
    if upto > 0 {
        lemma_var_items_count(signals, key, (upto - 1) as nat, wanted);
        let before = var_items(signals, key, (upto - 1) as nat);
        if spec_scope_key(signals[upto - 1].path) == key {
            assert(before.push(var_item(signals, upto - 1)).drop_last() =~= before);
        }
    }
}

/// Counting declarations in the block of a key is tallying the signals with that key: the
/// openings and closings of scopes around them are no declarations.
pub proof fn lemma_scope_block_count(
    signals: Seq<SignalView>,
    key: Seq<char>,
    wanted: spec_fn(VcdItem) -> bool,
)
    requires
        forall|item: VcdItem| #[trigger] wanted(item) ==> item is Var,
    ensures
        count_where(scope_block(signals, key), wanted) == tally(
            signals,
            key,
            signals.len(),
            wanted,
        ),
{
    let names = spec_scope_names(key);
    let opens = scope_opens(names);
    let vars = var_items(signals, key, signals.len());
    let closes = scope_closes(names.len());
    lemma_count_none(opens, wanted);
    lemma_count_none(closes, wanted);
    lemma_count_add(opens, vars, wanted);
    lemma_count_add(opens + vars, closes, wanted);
    lemma_var_items_count(signals, key, signals.len(), wanted);
}

/// Counting declarations in the blocks of some keys is summing the tallies of those keys.
pub proof fn lemma_scope_blocks_count(
    signals: Seq<SignalView>,
    keys: Seq<Seq<char>>,
    wanted: spec_fn(VcdItem) -> bool,
)
    requires
        forall|item: VcdItem| #[trigger] wanted(item) ==> item is Var,
    ensures
        count_where(scope_blocks(signals, keys), wanted) == total(
            signals,
            keys,
            signals.len(),
            wanted,
        ),
    decreases keys.len(),
{
    if keys.len() > 0 {
        lemma_scope_blocks_count(signals, keys.drop_last(), wanted);
        lemma_scope_block_count(signals, keys.last(), wanted);
        lemma_count_add(
            scope_blocks(signals, keys.drop_last()),
            scope_block(signals, keys.last()),
            wanted,
        );
    }
}

/// One more signal adds to the sum of the tallies as often as its key occurs among the keys,
/// if what is wanted holds of its declaration, and nothing otherwise.
pub proof fn lemma_total_next(
    signals: Seq<SignalView>,
    keys: Seq<Seq<char>>,
    upto: nat,
    wanted: spec_fn(VcdItem) -> bool,
)
    requires
        upto >= 1,
    ensures
        total(signals, keys, upto, wanted) == total(signals, keys, (upto - 1) as nat, wanted)
            + if wanted(var_item(signals, upto - 1)) {
            key_count(keys, spec_scope_key(signals[upto - 1].path))
        } else {
            0nat
        },
    decreases keys.len(),
{
    if keys.len() > 0 {
        lemma_total_next(signals, keys.drop_last(), upto, wanted);
    }
}

/// A key that is among keys without duplicates occurs once among them.
pub proof fn lemma_key_count_one(keys: Seq<Seq<char>>, key: Seq<char>)
    requires
        keys.no_duplicates(),
        keys.contains(key),
    ensures
        key_count(keys, key) == 1,
    decreases keys.len(),
{
    let shorter = keys.drop_last();
    let k = choose|k: int| 0 <= k < keys.len() && keys[k] == key;
    if keys.last() == key {
        lemma_key_count_zero(shorter, key);
    } else {
        assert(shorter[k] == key);
        lemma_key_count_one(shorter, key);
    }
}

/// A key that is not among the keys occurs among them no time.
pub proof fn lemma_key_count_zero(keys: Seq<Seq<char>>, key: Seq<char>)
    requires
        forall|i: int| 0 <= i < keys.len() ==> #[trigger] keys[i] != key,
    ensures
        key_count(keys, key) == 0,
    decreases keys.len(),
{
    if keys.len() > 0 {
        let shorter = keys.drop_last();
        lemma_key_count_zero(shorter, key);
    }
}

/// Over the scope keys of a signal table, the sum of the tallies counts each signal once.
pub proof fn lemma_total_is_hits(
    signals: Seq<SignalView>,
    upto: nat,
    wanted: spec_fn(VcdItem) -> bool,
)
    requires
        upto <= signals.len(),
    ensures
        total(signals, spec_scope_keys(signals), upto, wanted) == hits(signals, upto, wanted),
    decreases upto,
{
    let keys = spec_scope_keys(signals);
    if upto == 0 {
        lemma_total_zero(signals, keys, wanted);
    } else {
        lemma_total_is_hits(signals, (upto - 1) as nat, wanted);
        lemma_total_next(signals, keys, upto, wanted);
        lemma_scope_keys(signals);
        lemma_key_count_one(keys, spec_scope_key(signals[upto - 1].path));
    }
}

/// The sum of the tallies of no signals is 0.
pub proof fn lemma_total_zero(
    signals: Seq<SignalView>,
    keys: Seq<Seq<char>>,
    wanted: spec_fn(VcdItem) -> bool,
)
    ensures
        total(signals, keys, 0, wanted) == 0,
    decreases keys.len(),
{
    if keys.len() > 0 {
        lemma_total_zero(signals, keys.drop_last(), wanted);
    }
}

/// The declarations of two signals are alike only where they are the same signal.
pub proof fn lemma_var_item_injective(signals: Seq<SignalView>, i: int, j: int)
    requires
        0 <= i,
        0 <= j,
        var_item(signals, i) == var_item(signals, j),
    ensures
        i == j,
{
    lemma_identifier_injective(i as nat, j as nat);
}

/// Every one of the first `upto` signals has a declaration of a variable.
pub proof fn lemma_hits_all(signals: Seq<SignalView>, upto: nat)
    ensures
        hits(signals, upto, is_var()) == upto,
    decreases upto,
{
    if upto > 0 {
        lemma_hits_all(signals, (upto - 1) as nat);
    }
}

/// The declaration of the signal at `i` is the declaration of one of the first `upto`
/// signals where `i` is less than `upto`, and of none of them otherwise.
pub proof fn lemma_hits_one(signals: Seq<SignalView>, upto: nat, i: int)
    requires
        0 <= i,
    ensures
        hits(signals, upto, is_item(var_item(signals, i))) == if i < upto {
            1nat
        } else {
            0nat
        },
    decreases upto,
{
    if upto > 0 {
        lemma_hits_one(signals, (upto - 1) as nat, i);
        if var_item(signals, upto - 1) == var_item(signals, i) {
            lemma_var_item_injective(signals, upto - 1, i);
        }
    }
}

/// Counting declarations in the whole text is counting them among the declarations: the
/// header, the end of the definitions and the value changes hold none.
pub proof fn lemma_count_only_declarations(
    waveform: WaveformView,
    wanted: spec_fn(VcdItem) -> bool,
)
    requires
        forall|item: VcdItem| #[trigger] wanted(item) ==> item is Var,
    ensures
        count_where(spec_vcd_items(waveform), wanted) == hits(
            waveform.signals,
            waveform.signals.len(),
            wanted,
        ),
{
    let header = header_items(waveform.header);
    let declarations = declaration_items(waveform.signals);
    let end = seq![VcdItem::EndDefinitions];
    let changes = change_items(waveform.signals, waveform.changes);
    lemma_count_none(header, wanted);
    lemma_count_none(end, wanted);
    lemma_time_blocks_shape(waveform.signals, waveform.changes, spec_timeline(waveform.changes));
    lemma_count_none(changes, wanted);
    lemma_count_add(header, declarations, wanted);
    lemma_count_add(header + declarations, end, wanted);
    lemma_count_add(header + declarations + end, changes, wanted);
    lemma_scope_blocks_count(waveform.signals, spec_scope_keys(waveform.signals), wanted);
    lemma_total_is_hits(waveform.signals, waveform.signals.len(), wanted);
}

/// The value changes hold time markers and changes, nothing else; their time markers are the
/// times given.
pub proof fn lemma_time_blocks_shape(
    signals: Seq<SignalView>,
    changes: Seq<ChangeView>,
    times: Seq<u64>,
)
    ensures
        forall|i: int|
            0 <= i < time_blocks(signals, changes, times).len() ==> {
                let item = #[trigger] time_blocks(signals, changes, times)[i];
                item is Time || item is Scalar || item is Vector
            },
        time_markers(time_blocks(signals, changes, times)) == times,
    decreases times.len(),
{
    if times.len() > 0 {
        let before = time_blocks(signals, changes, times.drop_last());
        let marker = seq![VcdItem::Time(times.last())];
        let at = items_at(signals, changes, times.last());
        lemma_time_blocks_shape(signals, changes, times.drop_last());
        lemma_items_at_shape(signals, changes, times.last());
        lemma_time_markers_add(before, marker);
        lemma_time_markers_add(before + marker, at);
        lemma_time_markers_none(at);
        assert(marker.drop_last() =~= Seq::<VcdItem>::empty());
        assert(time_markers(Seq::<VcdItem>::empty()) =~= Seq::<u64>::empty());
    } else {
        assert(time_markers(time_blocks(signals, changes, times)) =~= times);
    }
}

/// The blocks of scope keys hold no time marker.
pub proof fn lemma_scope_blocks_no_time(signals: Seq<SignalView>, keys: Seq<Seq<char>>)
    ensures
        time_markers(scope_blocks(signals, keys)) == Seq::<u64>::empty(),
    decreases keys.len(),
{
    if keys.len() > 0 {
        let key = keys.last();
        let names = spec_scope_names(key);
        let opens = scope_opens(names);
        let vars = var_items(signals, key, signals.len());
        let closes = scope_closes(names.len());
        lemma_scope_blocks_no_time(signals, keys.drop_last());
        lemma_var_items_shape(signals, key, signals.len());
        lemma_time_markers_none(opens);
        lemma_time_markers_none(vars);
        lemma_time_markers_none(closes);
        lemma_time_markers_add(opens, vars);
        lemma_time_markers_add(opens + vars, closes);
        lemma_time_markers_add(scope_blocks(signals, keys.drop_last()), scope_block(signals, key));
    }
}

/// Holds of the openings of scopes.
pub open spec fn is_scope_open() -> spec_fn(VcdItem) -> bool {
    |item: VcdItem| item is ScopeOpen
}

/// Holds of the closings of scopes.
pub open spec fn is_scope_close() -> spec_fn(VcdItem) -> bool {
    |item: VcdItem| item is ScopeClose
}

/// A count is the number of items where what is wanted holds of every item.
pub proof fn lemma_count_all(items: Seq<VcdItem>, wanted: spec_fn(VcdItem) -> bool)
    requires
        forall|i: int| 0 <= i < items.len() ==> wanted(#[trigger] items[i]),
    ensures
        count_where(items, wanted) == items.len(),
    decreases items.len(),
{
    if items.len() > 0 {
        let shorter = items.drop_last();
        lemma_count_all(shorter, wanted);
    }
}

/// The blocks of scope keys close as many scopes as they open.
pub proof fn lemma_scope_blocks_balanced(signals: Seq<SignalView>, keys: Seq<Seq<char>>)
    ensures
        count_where(scope_blocks(signals, keys), is_scope_open()) == count_where(
            scope_blocks(signals, keys),
            is_scope_close(),
        ),
    decreases keys.len(),
{
    if keys.len() > 0 {
        let key = keys.last();
        let names = spec_scope_names(key);
        let opens = scope_opens(names);
        let vars = var_items(signals, key, signals.len());
        let closes = scope_closes(names.len());
        let before = scope_blocks(signals, keys.drop_last());
        lemma_scope_blocks_balanced(signals, keys.drop_last());
        lemma_var_items_shape(signals, key, signals.len());
        lemma_count_all(opens, is_scope_open());
        lemma_count_none(vars, is_scope_open());
        lemma_count_none(closes, is_scope_open());
        lemma_count_none(opens, is_scope_close());
        lemma_count_none(vars, is_scope_close());
        lemma_count_all(closes, is_scope_close());
        lemma_count_add(opens, vars, is_scope_open());
        lemma_count_add(opens + vars, closes, is_scope_open());
        lemma_count_add(opens, vars, is_scope_close());
        lemma_count_add(opens + vars, closes, is_scope_close());
        lemma_count_add(before, scope_block(signals, key), is_scope_open());
        lemma_count_add(before, scope_block(signals, key), is_scope_close());
    }
}

/// The exported text closes as many scopes as it opens.
pub proof fn lemma_scopes_balanced(waveform: WaveformView)
    ensures
        count_where(spec_vcd_items(waveform), is_scope_open()) == count_where(
            spec_vcd_items(waveform),
            is_scope_close(),
        ),
{
    let header = header_items(waveform.header);
    let declarations = declaration_items(waveform.signals);
    let end = seq![VcdItem::EndDefinitions];
    let changes = change_items(waveform.signals, waveform.changes);
    lemma_time_blocks_shape(waveform.signals, waveform.changes, spec_timeline(waveform.changes));
    lemma_scope_blocks_balanced(waveform.signals, spec_scope_keys(waveform.signals));
    lemma_count_none(header, is_scope_open());
    lemma_count_none(end, is_scope_open());
    lemma_count_none(changes, is_scope_open());
    lemma_count_none(header, is_scope_close());
    lemma_count_none(end, is_scope_close());
    lemma_count_none(changes, is_scope_close());
    lemma_count_add(header, declarations, is_scope_open());
    lemma_count_add(header + declarations, end, is_scope_open());
    lemma_count_add(header + declarations + end, changes, is_scope_open());
    lemma_count_add(header, declarations, is_scope_close());
    lemma_count_add(header + declarations, end, is_scope_close());
    lemma_count_add(header + declarations + end, changes, is_scope_close());
}

/// The exported text declares each signal of the table once, and declares nothing else: there
/// are as many declarations of variables as signals, and the declaration of each signal is
/// among them exactly once.
pub proof fn lemma_one_declaration_per_signal(waveform: WaveformView)
    ensures
        count_where(spec_vcd_items(waveform), is_var()) == waveform.signals.len(),
        forall|i: int|
            0 <= i < waveform.signals.len() ==> count_where(
                spec_vcd_items(waveform),
                is_item(#[trigger] var_item(waveform.signals, i)),
            ) == 1,
{
    let n = waveform.signals.len();
    lemma_count_only_declarations(waveform, is_var());
    lemma_hits_all(waveform.signals, n);
    assert forall|i: int| 0 <= i < n implies count_where(
        spec_vcd_items(waveform),
        is_item(#[trigger] var_item(waveform.signals, i)),
    ) == 1 by {
        lemma_count_only_declarations(waveform, is_item(var_item(waveform.signals, i)));
        lemma_hits_one(waveform.signals, n, i);
    }
}

/// The time markers of the exported text are the times at which a change is made, each once,
/// in ascending order.
pub proof fn lemma_one_marker_per_time(waveform: WaveformView)
    ensures
        time_markers(spec_vcd_items(waveform)) == spec_timeline(waveform.changes),
        strictly_ascending(time_markers(spec_vcd_items(waveform))),
        forall|time: u64|
            time_markers(spec_vcd_items(waveform)).contains(time) <==> has_time(
                waveform.changes,
                time,
            ),
{
    let header = header_items(waveform.header);
    let declarations = declaration_items(waveform.signals);
    let end = seq![VcdItem::EndDefinitions];
    let changes = change_items(waveform.signals, waveform.changes);
    lemma_time_markers_none(header);
    lemma_time_markers_none(end);
    lemma_scope_blocks_no_time(waveform.signals, spec_scope_keys(waveform.signals));
    lemma_time_blocks_shape(waveform.signals, waveform.changes, spec_timeline(waveform.changes));
    lemma_time_markers_add(header, declarations);
    lemma_time_markers_add(header + declarations, end);
    lemma_time_markers_add(header + declarations + end, changes);
    lemma_timeline(waveform.changes);
}

/// The waveform of a parsed document can be exported, and its text declares each of its
/// signals once and marks each time of its changes once, in ascending order.
pub proof fn lemma_export_of_parse(data: Seq<u8>)
    requires
        spec_parse(data) is Ok,
    ensures
        ({
            let waveform = spec_parse(data)->Ok_0;
            let items = spec_vcd_items(waveform);
            &&& waveform.well_formed()
            &&& count_where(items, is_var()) == waveform.signals.len()
            &&& forall|i: int|
                0 <= i < waveform.signals.len() ==> count_where(
                    items,
                    is_item(#[trigger] var_item(waveform.signals, i)),
                ) == 1
            &&& strictly_ascending(time_markers(items))
            &&& forall|time: u64|
                time_markers(items).contains(time) <==> has_time(waveform.changes, time)
        }),
{
    let waveform = spec_parse(data)->Ok_0;
    lemma_parse_sound(data);
    lemma_one_declaration_per_signal(waveform);
    lemma_one_marker_per_time(waveform);
}

} // verus!
