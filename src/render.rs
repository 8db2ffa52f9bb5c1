//! Text of generated items and assembly of the final artifacts.

use vstd::prelude::*;
use vstd::string::StringExecFns;
use crate::model::{Device, Peripheral};
use crate::target::Target;
use crate::text::{hex_text, dec_text, push_hex, push_dec};
use crate::layout::resolved_layout;
use crate::emit::{GeneratedItem, ItemView, views, peripheral_items, emit_peripheral};
use crate::normalize::{
    ModelError, NormalPeripheral, normalize, normalized, device_valid, peripherals_valid, error_holds,
};
use crate::interrupts::{
    TableError, Vector, vector_table, linker_script, linker_script_text, is_table_of, table_text_unique,
};

verus! {

/// The word for the operations an accessor offers.
pub open spec fn access_word(read: bool, write: bool) -> Seq<char> {
    if read && write {
        "ReadWrite"@
    } else if read {
        "ReadOnly"@
    } else if write {
        "WriteOnly"@
    } else {
        "NoAccess"@
    }
}

fn access_str(read: bool, write: bool) -> (r: &'static str)
    ensures
        r@ == access_word(read, write),
{
    if read && write {
        "ReadWrite"
    } else if read {
        "ReadOnly"
    } else if write {
        "WriteOnly"
    } else {
        "NoAccess"
    }
}

/// The remark on a register's accessor that its modify operation is a
/// read followed by a write, with no synchronisation.
pub open spec fn modify_note(modify: bool) -> Seq<char> {
    if modify { "    /// `modify` reads, then writes: it is not atomic.\n"@ } else { Seq::empty() }
}

/// The source text of one item.
pub open spec fn item_text(v: ItemView) -> Seq<char> {
    match v {
        ItemView::BlockType { block } => "#[repr(C)]\npub struct "@ + block + ";\n"@,
        ItemView::RegisterAccessor { block, register, offset, width, reset_value, read, write, modify } =>
            "impl "@ + block + " {\n    /// Reset value: 0x"@ + hex_text(reset_value as nat) + "\n"@
                + modify_note(modify) + "    pub const "@ + register + ": Reg<u"@ + dec_text(width as nat)
                + ", "@ + access_word(read, write) + "> = Reg::at(0x"@ + hex_text(offset as nat) + ");\n}\n"@,
        ItemView::FieldAccessor { block, register, field, bit_offset, bit_width, get, set } =>
            "impl "@ + block + " {\n    pub const "@ + register + "_"@ + field + ": Field<"@
                + access_word(get, set) + "> = Field::bits("@ + dec_text(bit_offset as nat) + ", "@
                + dec_text(bit_width as nat) + ");\n}\n"@,
        ItemView::EnumConstant { block, register, field, name, value } =>
            "impl "@ + block + " {\n    pub const "@ + register + "_"@ + field + "_"@ + name + ": u64 = 0x"@
                + hex_text(value as nat) + ";\n}\n"@,
        ItemView::Instance { name, block, base_address } =>
            "pub const "@ + name + ": Peripheral<"@ + block + "> = Peripheral::at(0x"@
                + hex_text(base_address as nat) + ");\n"@,
    }
}

fn push_register_text(s: &mut String, item: &GeneratedItem)
    requires
        item is RegisterAccessor,
    ensures
        final(s)@ == old(s)@ + item_text(item@),
{
    let ghost start = s@;
    match item {
        GeneratedItem::RegisterAccessor { block, register, offset, width, reset_value, read, write, modify } => {
            s.append("impl ");
            s.append(block.as_str());
            s.append(" {\n    /// Reset value: 0x");
            push_hex(s, *reset_value);
            s.append("\n");
            let ghost head = s@;
            if *modify {
                s.append("    /// `modify` reads, then writes: it is not atomic.\n");
            }
            assert(s@ =~= head + modify_note(*modify));
            let ghost mid = s@;
            assert(mid =~= start + "impl "@ + block@ + " {\n    /// Reset value: 0x"@ + hex_text(*reset_value as nat) + "\n"@
                + modify_note(*modify));
            s.append("    pub const ");
            s.append(register.as_str());
            s.append(": Reg<u");
            push_dec(s, *width as u64);
            s.append(", ");
            s.append(access_str(*read, *write));
            s.append("> = Reg::at(0x");
            push_hex(s, *offset);
            s.append(");\n}\n");
            assert(s@ =~= start + item_text(item@));
        },
        _ => {},
    }
}

fn push_field_text(s: &mut String, item: &GeneratedItem)
    requires
        item is FieldAccessor,
    ensures
        final(s)@ == old(s)@ + item_text(item@),
{
    let ghost start = s@;
    match item {
        GeneratedItem::FieldAccessor { block, register, field, bit_offset, bit_width, get, set } => {
            s.append("impl ");
            s.append(block.as_str());
            s.append(" {\n    pub const ");
            s.append(register.as_str());
            s.append("_");
            s.append(field.as_str());
            s.append(": Field<");
            s.append(access_str(*get, *set));
            s.append("> = Field::bits(");
            push_dec(s, *bit_offset as u64);
            s.append(", ");
            push_dec(s, *bit_width as u64);
            s.append(");\n}\n");
            assert(s@ =~= start + item_text(item@));
        },
        _ => {},
    }
}

fn push_constant_text(s: &mut String, item: &GeneratedItem)
    requires
        item is EnumConstant,
    ensures
        final(s)@ == old(s)@ + item_text(item@),
{
    let ghost start = s@;
    match item {
        GeneratedItem::EnumConstant { block, register, field, name, value } => {
            s.append("impl ");
            s.append(block.as_str());
            s.append(" {\n    pub const ");
            s.append(register.as_str());
            s.append("_");
            s.append(field.as_str());
            s.append("_");
            s.append(name.as_str());
            s.append(": u64 = 0x");
            push_hex(s, *value);
            s.append(";\n}\n");
            assert(s@ =~= start + item_text(item@));
        },
        _ => {},
    }
}

/// Appends the source text of one item.
pub fn push_item(s: &mut String, item: &GeneratedItem)
    ensures
        final(s)@ == old(s)@ + item_text(item@),
{
    match item {
        GeneratedItem::BlockType { block } => {
            let ghost start = s@;
            s.append("#[repr(C)]\npub struct ");
            s.append(block.as_str());
            s.append(";\n");
            assert(s@ =~= start + item_text(item@));
        },
        GeneratedItem::RegisterAccessor { .. } => push_register_text(s, item),
        GeneratedItem::FieldAccessor { .. } => push_field_text(s, item),
        GeneratedItem::EnumConstant { .. } => push_constant_text(s, item),
        GeneratedItem::Instance { name, block, base_address } => {
            let ghost start = s@;
            s.append("pub const ");
            s.append(name.as_str());
            s.append(": Peripheral<");
            s.append(block.as_str());
            s.append("> = Peripheral::at(0x");
            push_hex(s, *base_address);
            s.append(");\n");
            assert(s@ =~= start + item_text(item@));
        },
    }
}

/// The text of a sequence of items, in order.
pub open spec fn items_text(items: Seq<ItemView>) -> Seq<char>
    decreases items.len(),
{
    if items.len() == 0 { Seq::empty() } else { items_text(items.drop_last()) + item_text(items.last()) }
}

/// The items of the first `n` peripherals, in declaration order.
pub open spec fn device_items(ps: Seq<Peripheral>, n: int) -> Seq<ItemView>
    decreases n,
{
    if n <= 0 { Seq::empty() } else { device_items(ps, n - 1) + peripheral_items(ps, n - 1, resolved_layout(ps, n - 1)) }
}

/// The crate attribute that the forward-looking flag adds on Cortex-M.
pub open spec fn code_header(target: Target, nightly: bool) -> Seq<char> {
    if target == Target::CortexM && nightly { "#![feature(const_fn)]\n"@ } else { Seq::empty() }
}

/// What a render hands to the writer: the code, and for Cortex-M the
/// linker script and the request for the build program that installs it.
#[derive(Clone, Debug)]
pub struct Artifacts {
    pub code: String,
    pub linker_script: Option<String>,
    pub build_script: bool,
}

/// Why a render failed.
#[derive(Clone, Debug)]
pub enum RenderError {
    Model(ModelError),
    Table(TableError),
}

/// `a` is what rendering `d` for `target` gives.
pub open spec fn renders(d: Device, target: Target, nightly: bool, a: Artifacts) -> bool {
    let ps = d.peripherals@;
    &&& a.code@ == code_header(target, nightly) + items_text(device_items(ps, ps.len() as int))
    &&& target == Target::CortexM ==> (a.linker_script matches Option::Some(ls)
        && exists|t: Seq<Vector>| is_table_of(t, d.interrupts@) && ls@ == linker_script_text(t))
    &&& target != Target::CortexM ==> a.linker_script is None
    &&& a.build_script == (target == Target::CortexM)
}

/// Emits the items of every peripheral of a normalised device, in declaration order.
pub fn render_items(ps: &Vec<Peripheral>, norm: &Vec<NormalPeripheral>) -> (r: Vec<GeneratedItem>)
    requires
        normalized(ps@, norm@),
        peripherals_valid(ps@),
    ensures
        views(r@) == device_items(ps@, ps@.len() as int),
{
    let mut out: Vec<GeneratedItem> = Vec::new();
    let n = ps.len();
    for i in 0..n
        invariant
            n == ps@.len(),
            normalized(ps@, norm@),
            peripherals_valid(ps@),
            views(out@) == device_items(ps@, i as int),
    {
        emit_peripheral(ps, norm, i, &mut out);
    }
    out
}

/// Writes the text of a sequence of items after a header.
pub fn code_stream(header: &str, items: &Vec<GeneratedItem>) -> (r: String)
    ensures
        r@ == header@ + items_text(views(items@)),
{
    let mut s = String::from_str(header);
    let n = items.len();
    for i in 0..n
        invariant
            n == items@.len(),
            s@ == header@ + items_text(views(items@.subrange(0, i as int))),
    {
        assert(views(items@.subrange(0, i + 1)).drop_last() =~= views(items@.subrange(0, i as int)));
        assert(views(items@.subrange(0, i + 1)).last() == items@[i as int]@);
        push_item(&mut s, &items[i]);
        assert(s@ =~= header@ + items_text(views(items@.subrange(0, i + 1))));
    }
    assert(items@.subrange(0, n as int) =~= items@);
    s
}

/// Renders a device for a target: validates and resolves it, emits the
/// items of every peripheral, and for Cortex-M adds the linker script of the
/// vector table and the build program. Nothing is produced on failure.
pub fn render(d: &Device, target: Target, nightly: bool) -> (r: Result<Artifacts, RenderError>)
    ensures
        r is Ok <==> device_valid(*d),
        r matches Ok(a) ==> renders(*d, target, nightly, a),
        r matches Err(e) ==> (e matches RenderError::Model(m) && error_holds(*d, m)),
{
    let norm = match normalize(d) {
        Ok(n) => n,
        Err(e) => {
            return Err(RenderError::Model(e));
        },
    };
    let items = render_items(&d.peripherals, &norm);
    let header: &str = if target == Target::CortexM && nightly { "#![feature(const_fn)]\n" } else { "" };
    proof {
        reveal_strlit("");
    }
    assert(header@ == code_header(target, nightly));
    let code = code_stream(header, &items);
    if target.has_runtime_support() {
        match vector_table(&d.interrupts) {
            Ok(t) => {
                let ls = linker_script(&t);
                Ok(Artifacts { code, linker_script: Option::Some(ls), build_script: true })
            },
            Err(e) => Err(RenderError::Table(e)),
        }
    } else {
        Ok(Artifacts { code, linker_script: Option::None, build_script: false })
    }
}

/// Rendering is a function of the device, the target and the flag: two
/// renders give byte-identical code and linker script, and the same request
/// for the build program.
pub proof fn render_is_deterministic(d: Device, target: Target, nightly: bool, a1: Artifacts, a2: Artifacts)
    requires
        renders(d, target, nightly, a1),
        renders(d, target, nightly, a2),
    ensures
        a1.code@ == a2.code@,
        a1.build_script == a2.build_script,
        a1.linker_script is Some <==> a2.linker_script is Some,
        a1.linker_script matches Option::Some(x) ==> (a2.linker_script matches Option::Some(y) && x@ == y@),
{
    if target == Target::CortexM {
        let x = a1.linker_script->Some_0;
        let y = a2.linker_script->Some_0;
        let t1 = choose|t: Seq<Vector>| is_table_of(t, d.interrupts@) && x@ == linker_script_text(t);
        let t2 = choose|t: Seq<Vector>| is_table_of(t, d.interrupts@) && y@ == linker_script_text(t);
        table_text_unique(t1, t2, d.interrupts@);
    }
}

} // verus!
