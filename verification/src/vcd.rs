//! The exporter: a waveform as VCD-style text.
//!
//! The text is specified in two steps. `spec_vcd_items` says which items the text is made of:
//! the three header commands, one block of scope and variable declarations for each scope
//! key, the end of the definitions, and for each time of the timeline a time marker followed
//! by the changes made at that time. `render` writes the items one after the other.

use crate::ident::{spec_identifier, SINGLE_CHARACTER_IDENTIFIERS};
use crate::number::{push_decimal, spec_decimal};
use crate::scope::{
    find_key, lemma_scope_keys, spec_leaf_name, spec_scope_key, spec_scope_keys,
    spec_scope_names, split_path, texts_view, PATH_SEPARATOR,
};
use crate::text::{chars_of, nonempty, push_chars, slices_view, split, Separator};
use crate::timeline::{find_slot, has_time, lemma_timeline, spec_timeline};
use crate::waveform::{
    changes_resolved, changes_view, signals_view, ChangeView, HeaderView, SignalView,
    WaveformView, WcpChange, WcpHeader, WcpSignal, WcpWaveform,
};
use vstd::prelude::*;
use vstd::string::StringExecFns;

verus! {

/// One item of the exported text.
pub enum VcdItem {
    /// The date command.
    Date(Seq<char>),
    /// The version command.
    Version(Seq<char>),
    /// The timescale command.
    Timescale(Seq<char>),
    /// The opening of a scope with the given name.
    ScopeOpen(Seq<char>),
    /// The declaration of a variable.
    Var { signal_type: Seq<char>, width: nat, id: Seq<char>, name: Seq<char> },
    /// The closing of the innermost scope.
    ScopeClose,
    /// The end of the declarations.
    EndDefinitions,
    /// The marker of a time.
    Time(u64),
    /// A change of a signal of width 1.
    Scalar { value: Seq<char>, id: Seq<char> },
    /// A change of a signal of another width.
    Vector { value: Seq<char>, id: Seq<char> },
}

impl VcdItem {
    /// The text of the item, which ends with a line feed.
    pub open spec fn text(self) -> Seq<char> {
        match self {
            VcdItem::Date(date) => "$date\n   "@ + date + "\n$end\n"@,
            VcdItem::Version(version) => "$version\n   WCP "@ + version + "\n$end\n"@,
            VcdItem::Timescale(timescale) => "$timescale "@ + timescale + " $end\n"@,
            VcdItem::ScopeOpen(name) => "$scope module "@ + name + " $end\n"@,
            VcdItem::Var { signal_type, width, id, name } => "$var "@ + signal_type + " "@
                + spec_decimal(width) + " "@ + id + " "@ + name + " $end\n"@,
            VcdItem::ScopeClose => "$upscope $end\n"@,
            VcdItem::EndDefinitions => "$enddefinitions $end\n"@,
            VcdItem::Time(time) => "#"@ + spec_decimal(time as nat) + "\n"@,
            VcdItem::Scalar { value, id } => value + id + "\n"@,
            VcdItem::Vector { value, id } => "b"@ + value + " "@ + id + "\n"@,
        }
    }
}

/// The texts of `items` one after the other.
pub open spec fn render(items: Seq<VcdItem>) -> Seq<char>
    decreases items.len(),
{
    if items.len() == 0 {
        Seq::empty()
    } else {
        render(items.drop_last()) + items.last().text()
    }
}

/// Rendering one more item adds its text.
pub proof fn lemma_render_push(items: Seq<VcdItem>, item: VcdItem)
    ensures
        render(items.push(item)) == render(items) + item.text(),
{
    assert(items.push(item).drop_last() =~= items);
}

/// Rendering two runs of items gives the text of the first, then that of the second.
pub proof fn lemma_render_add(first: Seq<VcdItem>, second: Seq<VcdItem>)
    ensures
        render(first + second) == render(first) + render(second),
    decreases second.len(),
{
    if second.len() == 0 {
        assert(first + second =~= first);
    } else {
        lemma_render_add(first, second.drop_last());
        assert((first + second).drop_last() =~= first + second.drop_last());
    }
}

/// The three commands that the text begins with.
pub open spec fn header_items(header: HeaderView) -> Seq<VcdItem> {
    seq![
        VcdItem::Date(header.date),
        VcdItem::Version(header.version),
        VcdItem::Timescale(header.timescale),
    ]
}

/// The declaration of the signal at index `i`.
pub open spec fn var_item(signals: Seq<SignalView>, i: int) -> VcdItem {
    VcdItem::Var {
        signal_type: signals[i].signal_type,
        width: signals[i].width,
        id: spec_identifier(i as nat),
        name: spec_leaf_name(signals[i].path),
    }
}

/// The declarations of those of the first `upto` signals whose scope key is `key`, in the
/// order of the signal table.
pub open spec fn var_items(signals: Seq<SignalView>, key: Seq<char>, upto: nat) -> Seq<VcdItem>
    decreases upto,
{
    if upto == 0 {
        Seq::empty()
    } else {
        let before = var_items(signals, key, (upto - 1) as nat);
        if spec_scope_key(signals[upto - 1].path) == key {
            before.push(var_item(signals, upto - 1))
        } else {
            before
        }
    }
}

/// The opening of one scope for each of `names`.
pub open spec fn scope_opens(names: Seq<Seq<char>>) -> Seq<VcdItem> {
    Seq::new(names.len(), |i: int| VcdItem::ScopeOpen(names[i]))
}

/// The closing of `count` scopes.
pub open spec fn scope_closes(count: nat) -> Seq<VcdItem> {
    Seq::new(count, |i: int| VcdItem::ScopeClose)
}

/// The block of one scope key: its scopes are opened, its signals declared, and as many
/// scopes closed as were opened.
pub open spec fn scope_block(signals: Seq<SignalView>, key: Seq<char>) -> Seq<VcdItem> {
    let names = spec_scope_names(key);
    scope_opens(names) + var_items(signals, key, signals.len()) + scope_closes(names.len())
}

/// The blocks of the scope keys `keys`, in their order.
pub open spec fn scope_blocks(signals: Seq<SignalView>, keys: Seq<Seq<char>>) -> Seq<VcdItem>
    decreases keys.len(),
{
    if keys.len() == 0 {
        Seq::empty()
    } else {
        scope_blocks(signals, keys.drop_last()) + scope_block(signals, keys.last())
    }
}

/// The declarations: one block for each scope key, in the order in which the keys first occur
/// in the signal table.
pub open spec fn declaration_items(signals: Seq<SignalView>) -> Seq<VcdItem> {
    scope_blocks(signals, spec_scope_keys(signals))
}

/// The item of one change: its value as it stands, in the short form for a signal of width 1
/// and in the vector form for any other.
pub open spec fn change_item(signals: Seq<SignalView>, change: ChangeView) -> VcdItem {
    if signals[change.signal_id as int].width == 1 {
        VcdItem::Scalar { value: change.value, id: spec_identifier(change.signal_id) }
    } else {
        VcdItem::Vector { value: change.value, id: spec_identifier(change.signal_id) }
    }
}

/// The items of the changes made at `time`, in the order of the change list.
pub open spec fn items_at(signals: Seq<SignalView>, changes: Seq<ChangeView>, time: u64) -> Seq<
    VcdItem,
>
    decreases changes.len(),
{
    if changes.len() == 0 {
        Seq::empty()
    } else {
        let before = items_at(signals, changes.drop_last(), time);
        if changes.last().time == time {
            before.push(change_item(signals, changes.last()))
        } else {
            before
        }
    }
}

/// For each of `times` in their order, its marker and the changes made at it.
pub open spec fn time_blocks(
    signals: Seq<SignalView>,
    changes: Seq<ChangeView>,
    times: Seq<u64>,
) -> Seq<VcdItem>
    decreases times.len(),
{
    if times.len() == 0 {
        Seq::empty()
    } else {
        time_blocks(signals, changes, times.drop_last()) + seq![VcdItem::Time(times.last())]
            + items_at(signals, changes, times.last())
    }
}

/// The value changes: the times of the timeline in ascending order, each with its changes.
pub open spec fn change_items(signals: Seq<SignalView>, changes: Seq<ChangeView>) -> Seq<VcdItem> {
    time_blocks(signals, changes, spec_timeline(changes))
}

/// The items that the exported text of a waveform is made of.
pub open spec fn spec_vcd_items(waveform: WaveformView) -> Seq<VcdItem> {
    header_items(waveform.header) + declaration_items(waveform.signals)
        + seq![VcdItem::EndDefinitions] + change_items(waveform.signals, waveform.changes)
}

/// The exported text of a waveform.
pub open spec fn spec_vcd(waveform: WaveformView) -> Seq<char> {
    render(spec_vcd_items(waveform))
}

/// No signal with a given key among the first `upto` means no declaration under that key.
pub proof fn lemma_var_items_none(signals: Seq<SignalView>, key: Seq<char>, upto: nat)
    requires
        upto <= signals.len(),
        forall|j: int| 0 <= j < upto ==> spec_scope_key((#[trigger] signals[j]).path) != key,
    ensures
        var_items(signals, key, upto) == Seq::<VcdItem>::empty(),
    decreases upto,
{
    if upto > 0 {
        lemma_var_items_none(signals, key, (upto - 1) as nat);
    }
}

/// No change at a given time means no item at that time.
pub proof fn lemma_items_at_none(signals: Seq<SignalView>, changes: Seq<ChangeView>, time: u64)
    requires
        !has_time(changes, time),
    ensures
        items_at(signals, changes, time) == Seq::<VcdItem>::empty(),
    decreases changes.len(),
{
    if changes.len() > 0 {
        let before = changes.drop_last();
        lemma_items_at_none(signals, before, time);
    }
}

/// Appends the three header commands to `out`.
pub fn push_header(out: &mut String, header: &WcpHeader)
    ensures
        final(out)@ == old(out)@ + render(header_items(header@)),
{
    out.append("$date\n   ");
    out.append(header.date.as_str());
    out.append("\n$end\n");
    out.append("$version\n   WCP ");
    out.append(header.version.as_str());
    out.append("\n$end\n");
    out.append("$timescale ");
    out.append(header.timescale.as_str());
    out.append(" $end\n");
    proof {
        let date = VcdItem::Date(header@.date);
        let version = VcdItem::Version(header@.version);
        let timescale = VcdItem::Timescale(header@.timescale);
        let none = Seq::<VcdItem>::empty();
        lemma_render_push(none, date);
        lemma_render_push(none.push(date), version);
        lemma_render_push(none.push(date).push(version), timescale);
        assert(header_items(header@) =~= none.push(date).push(version).push(timescale));
    }
}

/// Appends to `out` the declaration of the signal at `index` of `signals` under the name
/// `name`.
pub fn push_var(out: &mut String, signal: &WcpSignal, index: usize, name: &[char])
    ensures
        final(out)@ == old(out)@ + (VcdItem::Var {
            signal_type: signal@.signal_type,
            width: signal@.width,
            id: spec_identifier(index as nat),
            name: name@,
        }).text(),
{
    out.append("$var ");
    out.append(signal.signal_type.as_str());
    out.append(" ");
    push_decimal(out, signal.width as u64);
    out.append(" ");
    push_identifier(out, index);
    out.append(" ");
    push_chars(out, name);
    out.append(" $end\n");
}

/// Appends to `out` the identifier of the signal at `index` of the signal table.
pub fn push_identifier(out: &mut String, index: usize)
    ensures
        final(out)@ == old(out)@ + spec_identifier(index as nat),
{
    if index < SINGLE_CHARACTER_IDENTIFIERS {
        out.push((index + 33) as u8 as char);
    } else {
        out.push('_');
        push_decimal(out, index as u64);
    }
}

/// Appends to `out` the opening of one scope for each segment of `key` that is not empty.
/// Returns the number of scopes opened.
pub fn push_scope_opens(out: &mut String, key: &[char]) -> (count: usize)
    ensures
        final(out)@ == old(out)@ + render(scope_opens(spec_scope_names(key@))),
        count == spec_scope_names(key@).len(),
{
    let parts = split(key, Separator::Char(PATH_SEPARATOR));
    let names = nonempty(&parts);
    let ghost all = slices_view(names@);
    let mut i: usize = 0;
    while i < names.len()
        invariant
            i <= names@.len(),
            all == slices_view(names@),
            out@ == old(out)@ + render(scope_opens(all.take(i as int))),
        decreases names@.len() - i,
    {
        out.append("$scope module ");
        push_chars(out, names[i]);
        out.append(" $end\n");
        proof {
            let item = VcdItem::ScopeOpen(names@[i as int]@);
            assert(scope_opens(all.take(i + 1)) =~= scope_opens(all.take(i as int)).push(item));
            lemma_render_push(scope_opens(all.take(i as int)), item);
        }
        i += 1;
    }
    proof {
        assert(all.take(i as int) =~= all);
    }
    names.len()
}

/// Appends to `out` the closing of `count` scopes.
pub fn push_scope_closes(out: &mut String, count: usize)
    ensures
        final(out)@ == old(out)@ + render(scope_closes(count as nat)),
{
    let mut i: usize = 0;
    while i < count
        invariant
            i <= count,
            out@ == old(out)@ + render(scope_closes(i as nat)),
        decreases count - i,
    {
        out.append("$upscope $end\n");
        proof {
            assert(scope_closes((i + 1) as nat) =~= scope_closes(i as nat).push(
                VcdItem::ScopeClose,
            ));
            lemma_render_push(scope_closes(i as nat), VcdItem::ScopeClose);
        }
        i += 1;
    }
}

/// Appends to `out` the declarations of `signals`, one block for each scope key.
pub fn push_declarations(out: &mut String, signals: &Vec<WcpSignal>)
    ensures
        final(out)@ == old(out)@ + render(declaration_items(signals_view(signals@))),
{
    let ghost table = signals_view(signals@);
    let mut keys: Vec<Vec<char>> = Vec::new();
    let mut blocks: Vec<String> = Vec::new();
    let mut i: usize = 0;
    while i < signals.len()
        invariant
            i <= signals@.len(),
            table == signals_view(signals@),
            texts_view(keys@) == spec_scope_keys(table.take(i as int)),
            blocks@.len() == keys@.len(),
            forall|k: int|
                0 <= k < keys@.len() ==> (#[trigger] blocks@[k])@ == render(
                    var_items(table, keys@[k]@, i as nat),
                ),
        decreases signals@.len() - i,
    {
        let signal = &signals[i];
        let path = chars_of(signal.path.as_str());
        let (key, name) = split_path(path.as_slice());
        let p = find_key(&keys, key.as_slice());
        proof {
            assert(table.take(i + 1).drop_last() =~= table.take(i as int));
        }
        if p == keys.len() {
            proof {
                lemma_scope_keys(table.take(i as int));
                assert forall|j: int| 0 <= j < i implies spec_scope_key(
                    (#[trigger] table[j]).path,
                ) != key@ by {
                    assert(table.take(i as int)[j] == table[j]);
                }
                lemma_var_items_none(table, key@, i as nat);
            }
            keys.push(key);
            blocks.push(String::new());
        }
        push_var(&mut blocks[p], signal, i, name);
        proof {
            lemma_scope_keys(table.take(i + 1));
            assert forall|k: int| 0 <= k < keys@.len() implies (#[trigger] blocks@[k])@ == render(
                var_items(table, keys@[k]@, (i + 1) as nat),
            ) by {
                if k == p {
                    lemma_render_push(var_items(table, key@, i as nat), var_item(table, i as int));
                } else {
                    assert(texts_view(keys@)[k] == keys@[k]@);
                    assert(texts_view(keys@)[p as int] == key@);
                }
            }
        }
        i += 1;
    }
    proof {
        assert(table.take(i as int) =~= table);
    }
    let ghost all_keys = texts_view(keys@);
    let mut k: usize = 0;
    while k < keys.len()
        invariant
            k <= keys@.len(),
            table == signals_view(signals@),
            all_keys == texts_view(keys@),
            blocks@.len() == keys@.len(),
            forall|j: int|
                0 <= j < keys@.len() ==> (#[trigger] blocks@[j])@ == render(
                    var_items(table, keys@[j]@, table.len()),
                ),
            out@ == old(out)@ + render(scope_blocks(table, all_keys.take(k as int))),
        decreases keys@.len() - k,
    {
        let count = push_scope_opens(out, keys[k].as_slice());
        out.append(blocks[k].as_str());
        push_scope_closes(out, count);
        proof {
            let key = keys@[k as int]@;
            let names = spec_scope_names(key);
            let opens = scope_opens(names);
            let vars = var_items(table, key, table.len());
            let closes = scope_closes(names.len());
            lemma_render_add(opens, vars);
            lemma_render_add(opens + vars, closes);
            assert(all_keys.take(k + 1).drop_last() =~= all_keys.take(k as int));
            lemma_render_add(scope_blocks(table, all_keys.take(k as int)), scope_block(table, key));
        }
        k += 1;
    }
    proof {
        assert(all_keys.take(k as int) =~= all_keys);
    }
}

/// Appends to `out` the item of one change of a waveform with the signals `signals`.
pub fn push_change(out: &mut String, signals: &Vec<WcpSignal>, change: &WcpChange)
    requires
        change.signal_id < signals@.len(),
    ensures
        final(out)@ == old(out)@ + change_item(signals_view(signals@), change@).text(),
{
    if signals[change.signal_id].width == 1 {
        out.append(change.value.as_str());
        push_identifier(out, change.signal_id);
        out.append("\n");
    } else {
        out.append("b");
        out.append(change.value.as_str());
        out.append(" ");
        push_identifier(out, change.signal_id);
        out.append("\n");
    }
}

/// Appends to `out` the value changes: each time of the timeline, with the changes made at it.
pub fn push_changes(out: &mut String, signals: &Vec<WcpSignal>, changes: &Vec<WcpChange>)
    requires
        changes_resolved(changes_view(changes@), signals@.len() as nat),
    ensures
        final(out)@ == old(out)@ + render(
            change_items(signals_view(signals@), changes_view(changes@)),
        ),
{
    let ghost table = signals_view(signals@);
    let ghost list = changes_view(changes@);
    let mut times: Vec<u64> = Vec::new();
    let mut blocks: Vec<String> = Vec::new();
    let mut i: usize = 0;
    while i < changes.len()
        invariant
            i <= changes@.len(),
            table == signals_view(signals@),
            list == changes_view(changes@),
            changes_resolved(list, signals@.len() as nat),
            times@ == spec_timeline(list.take(i as int)),
            blocks@.len() == times@.len(),
            forall|k: int|
                0 <= k < times@.len() ==> (#[trigger] blocks@[k])@ == render(
                    items_at(table, list.take(i as int), times@[k]),
                ),
        decreases changes@.len() - i,
    {
        let change = &changes[i];
        let ghost seen = list.take(i as int);
        proof {
            lemma_timeline(seen);
            assert(list.take(i + 1).drop_last() =~= seen);
            assert(list.take(i + 1).last() == list[i as int]);
        }
        let p = find_slot(&times, change.time);
        if !(p < times.len() && times[p] == change.time) {
            proof {
                lemma_items_at_none(table, seen, change.time);
            }
            times.insert(p, change.time);
            blocks.insert(p, String::new());
        }
        let ghost mid_blocks = blocks@;
        push_change(&mut blocks[p], signals, change);
        proof {
            assert forall|k: int| 0 <= k < times@.len() implies (#[trigger] blocks@[k])@ == render(
                items_at(table, list.take(i + 1), times@[k]),
            ) by {
                if k == p {
                    lemma_render_push(
                        items_at(table, seen, times@[k]),
                        change_item(table, change@),
                    );
                } else {
                    assert(blocks@[k] == mid_blocks[k]);
                }
            }
        }
        i += 1;
    }
    proof {
        assert(list.take(i as int) =~= list);
    }
    let mut k: usize = 0;
    while k < times.len()
        invariant
            k <= times@.len(),
            blocks@.len() == times@.len(),
            forall|j: int|
                0 <= j < times@.len() ==> (#[trigger] blocks@[j])@ == render(
                    items_at(table, list, times@[j]),
                ),
            out@ == old(out)@ + render(time_blocks(table, list, times@.take(k as int))),
        decreases times@.len() - k,
    {
        out.append("#");
        push_decimal(out, times[k]);
        out.append("\n");
        out.append(blocks[k].as_str());
        proof {
            let time = times@[k as int];
            let marker = VcdItem::Time(time);
            let done = time_blocks(table, list, times@.take(k as int));
            let at = items_at(table, list, time);
            assert(times@.take(k + 1).drop_last() =~= times@.take(k as int));
            lemma_render_push(Seq::<VcdItem>::empty(), marker);
            lemma_render_add(done, seq![marker]);
            lemma_render_add(done + seq![marker], at);
        }
        k += 1;
    }
    proof {
        assert(times@.take(k as int) =~= times@);
    }
}

/// Writes a waveform as VCD-style text.
///
/// Every change must refer to a signal of the table, as the changes of a parsed waveform do.
pub fn wcp_to_vcd(wcp: &WcpWaveform) -> (vcd: String)
    requires
        wcp.well_formed(),
    ensures
        vcd@ == spec_vcd(wcp@),
{
    let mut vcd = String::new();
    push_header(&mut vcd, &wcp.header);
    push_declarations(&mut vcd, &wcp.signals);
    vcd.append("$enddefinitions $end\n");
    push_changes(&mut vcd, &wcp.signals, &wcp.changes);
    proof {
        let header = header_items(wcp@.header);
        let declarations = declaration_items(wcp@.signals);
        let end = seq![VcdItem::EndDefinitions];
        let changes = change_items(wcp@.signals, wcp@.changes);
        lemma_render_push(Seq::<VcdItem>::empty(), VcdItem::EndDefinitions);
        lemma_render_add(header, declarations);
        lemma_render_add(header + declarations, end);
        lemma_render_add(header + declarations + end, changes);
    }
    vcd
}

} // verus!
