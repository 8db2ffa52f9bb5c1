//! Register and field accessor items of each peripheral.

use vstd::prelude::*;
use crate::model::{Access, Field, Register, RegisterBlock, Peripheral, effective_access, readable, writable};
use crate::layout::{BlockRef, block_at, refs_valid, resolved_layout, same_layout};
use crate::normalize::{
    NormalPeripheral, normalized, type_of, lemma_type_of_rep, alike_peripherals_share_type, peripherals_valid,
    block_sound, register_fits, end_of, lemma_span_covers,
};

verus! {

/// One unit of generated code.
#[derive(Clone, Debug)]
pub enum GeneratedItem {
    /// The register-block type shared by all peripherals of one layout.
    BlockType { block: String },
    /// A register of a block type, at its offset from the peripheral's base,
    /// with the operations its access allows.
    RegisterAccessor {
        block: String,
        register: String,
        offset: u64,
        width: u32,
        reset_value: u64,
        read: bool,
        write: bool,
        modify: bool,
    },
    /// A field view of a register, with a getter and a setter where allowed.
    FieldAccessor {
        block: String,
        register: String,
        field: String,
        bit_offset: u32,
        bit_width: u32,
        get: bool,
        set: bool,
    },
    /// A named value of a field.
    EnumConstant { block: String, register: String, field: String, name: String, value: u64 },
    /// A peripheral instance: its block type anchored at its base address.
    Instance { name: String, block: String, base_address: u64 },
}

/// The mathematical content of a generated item.
pub enum ItemView {
    BlockType { block: Seq<char> },
    RegisterAccessor {
        block: Seq<char>,
        register: Seq<char>,
        offset: u64,
        width: u32,
        reset_value: u64,
        read: bool,
        write: bool,
        modify: bool,
    },
    FieldAccessor {
        block: Seq<char>,
        register: Seq<char>,
        field: Seq<char>,
        bit_offset: u32,
        bit_width: u32,
        get: bool,
        set: bool,
    },
    EnumConstant { block: Seq<char>, register: Seq<char>, field: Seq<char>, name: Seq<char>, value: u64 },
    Instance { name: Seq<char>, block: Seq<char>, base_address: u64 },
}

impl View for GeneratedItem {
    type V = ItemView;

    open spec fn view(&self) -> ItemView {
        match self {
            GeneratedItem::BlockType { block } => ItemView::BlockType { block: block@ },
            GeneratedItem::RegisterAccessor { block, register, offset, width, reset_value, read, write, modify } =>
                ItemView::RegisterAccessor {
                    block: block@,
                    register: register@,
                    offset: *offset,
                    width: *width,
                    reset_value: *reset_value,
                    read: *read,
                    write: *write,
                    modify: *modify,
                },
            GeneratedItem::FieldAccessor { block, register, field, bit_offset, bit_width, get, set } =>
                ItemView::FieldAccessor {
                    block: block@,
                    register: register@,
                    field: field@,
                    bit_offset: *bit_offset,
                    bit_width: *bit_width,
                    get: *get,
                    set: *set,
                },
            GeneratedItem::EnumConstant { block, register, field, name, value } => ItemView::EnumConstant {
                block: block@,
                register: register@,
                field: field@,
                name: name@,
                value: *value,
            },
            GeneratedItem::Instance { name, block, base_address } => ItemView::Instance {
                name: name@,
                block: block@,
                base_address: *base_address,
            },
        }
    }
}

/// The views of a sequence of items.
pub open spec fn views(s: Seq<GeneratedItem>) -> Seq<ItemView> {
    s.map_values(|x: GeneratedItem| x@)
}

/// The accessor of field `f` of register `r` in block type `t`.
pub open spec fn field_accessor(t: Seq<char>, r: Register, f: Field) -> ItemView {
    ItemView::FieldAccessor {
        block: t,
        register: r.name@,
        field: f.name@,
        bit_offset: f.bit_offset,
        bit_width: f.bit_width,
        get: readable(effective_access(f, r)),
        set: writable(effective_access(f, r)),
    }
}

/// The named values of field `f`, in order.
pub open spec fn value_items(t: Seq<char>, r: Register, f: Field) -> Seq<ItemView> {
    Seq::new(f.values@.len(), |k: int| ItemView::EnumConstant {
        block: t,
        register: r.name@,
        field: f.name@,
        name: f.values@[k].name@,
        value: f.values@[k].value,
    })
}

/// The items of the fields `fs` of register `r`: each field's accessor, then its values.
pub open spec fn field_items(t: Seq<char>, r: Register, fs: Seq<Field>) -> Seq<ItemView>
    decreases fs.len(),
{
    if fs.len() == 0 {
        Seq::empty()
    } else {
        field_items(t, r, fs.drop_last()) + seq![field_accessor(t, r, fs.last())] + value_items(t, r, fs.last())
    }
}

/// The accessor of register `r` of register block `b` in block type `t`: at
/// the block's offset plus the register's, with reads where readable, writes
/// where writable, and a (non-atomic) modify only where both.
pub open spec fn register_accessor(t: Seq<char>, b: RegisterBlock, r: Register) -> ItemView {
    ItemView::RegisterAccessor {
        block: t,
        register: r.name@,
        offset: (b.offset + r.offset) as u64,
        width: r.width,
        reset_value: r.reset_value,
        read: readable(r.access),
        write: writable(r.access),
        modify: r.access == Access::ReadWrite,
    }
}

/// The items of one register: its accessor, then those of its fields.
pub open spec fn register_items(t: Seq<char>, b: RegisterBlock, r: Register) -> Seq<ItemView> {
    seq![register_accessor(t, b, r)] + field_items(t, r, r.fields@)
}

/// The items of the registers `rs` of block `b`, in order.
pub open spec fn block_items(t: Seq<char>, b: RegisterBlock, rs: Seq<Register>) -> Seq<ItemView>
    decreases rs.len(),
{
    if rs.len() == 0 { Seq::empty() } else { block_items(t, b, rs.drop_last()) + register_items(t, b, rs.last()) }
}

/// The items of the register blocks of a layout, in order.
pub open spec fn layout_items(t: Seq<char>, ps: Seq<Peripheral>, l: Seq<BlockRef>) -> Seq<ItemView>
    decreases l.len(),
{
    if l.len() == 0 {
        Seq::empty()
    } else {
        layout_items(t, ps, l.drop_last()) + block_items(t, block_at(ps, l.last()), block_at(ps, l.last()).registers@)
    }
}

/// The instance item of `ps[i]`, of the type that it shares.
pub open spec fn instance_item(ps: Seq<Peripheral>, i: int) -> ItemView {
    ItemView::Instance {
        name: ps[i].name@,
        block: ps[type_of(ps, i)].name@,
        base_address: ps[i].base_address,
    }
}

/// The items of `ps[i]` with layout `l`: the first peripheral of a layout
/// defines the block type and its accessors; every peripheral gets its instance.
pub open spec fn peripheral_items(ps: Seq<Peripheral>, i: int, l: Seq<BlockRef>) -> Seq<ItemView> {
    if type_of(ps, i) == i {
        seq![ItemView::BlockType { block: ps[i].name@ }] + layout_items(ps[i].name@, ps, l)
            + seq![instance_item(ps, i)]
    } else {
        seq![instance_item(ps, i)]
    }
}

proof fn lemma_views_push(s: Seq<GeneratedItem>, x: GeneratedItem)
    ensures
        views(s.push(x)) == views(s).push(x@),
{
    assert(views(s.push(x)) =~= views(s).push(x@));
}

fn push_values(t: &String, r: &Register, f: &Field, out: &mut Vec<GeneratedItem>)
    ensures
        views(final(out)@) == views(old(out)@) + value_items(t@, *r, *f),
{
    let ghost start = views(out@);
    let vs = &f.values;
    for k in 0..vs.len()
        invariant
            vs == f.values,
            views(out@) == start + value_items(t@, *r, *f).subrange(0, k as int),
    {
        let ghost before = out@;
        out.push(GeneratedItem::EnumConstant {
            block: t.clone(),
            register: r.name.clone(),
            field: f.name.clone(),
            name: vs[k].name.clone(),
            value: vs[k].value,
        });
        proof {
            lemma_views_push(before, out@.last());
        }
        assert(views(out@) =~= start + value_items(t@, *r, *f).subrange(0, k + 1));
    }
    assert(value_items(t@, *r, *f).subrange(0, vs@.len() as int) =~= value_items(t@, *r, *f));
}

fn push_register(t: &String, b: &RegisterBlock, r: &Register, out: &mut Vec<GeneratedItem>)
    requires
        b.offset + r.offset <= u64::MAX,
    ensures
        views(final(out)@) == views(old(out)@) + register_items(t@, *b, *r),
{
    let ghost start = views(out@);
    let ghost before = out@;
    out.push(GeneratedItem::RegisterAccessor {
        block: t.clone(),
        register: r.name.clone(),
        offset: b.offset + r.offset,
        width: r.width,
        reset_value: r.reset_value,
        read: r.access.can_read(),
        write: r.access.can_write(),
        modify: r.access == Access::ReadWrite,
    });
    proof {
        lemma_views_push(before, out@.last());
    }
    assert(views(out@) =~= start + seq![register_accessor(t@, *b, *r)]);
    let ghost head = views(out@);
    let fs = &r.fields;
    for i in 0..fs.len()
        invariant
            fs == r.fields,
            views(out@) == head + field_items(t@, *r, fs@.subrange(0, i as int)),
    {
        assert(fs@.subrange(0, i + 1).drop_last() =~= fs@.subrange(0, i as int));
        let f = &fs[i];
        let acc = f.access_in(r);
        let ghost before = out@;
        out.push(GeneratedItem::FieldAccessor {
            block: t.clone(),
            register: r.name.clone(),
            field: f.name.clone(),
            bit_offset: f.bit_offset,
            bit_width: f.bit_width,
            get: acc.can_read(),
            set: acc.can_write(),
        });
        proof {
            lemma_views_push(before, out@.last());
        }
        assert(views(out@) =~= head + field_items(t@, *r, fs@.subrange(0, i as int)) + seq![field_accessor(t@, *r, *f)]);
        push_values(t, r, f, out);
        assert(views(out@) =~= head + field_items(t@, *r, fs@.subrange(0, i + 1)));
    }
    assert(fs@.subrange(0, fs@.len() as int) =~= fs@);
    assert(views(out@) =~= views(old(out)@) + register_items(t@, *b, *r));
}

fn push_block(t: &String, b: &RegisterBlock, out: &mut Vec<GeneratedItem>)
    requires
        forall|j: int| 0 <= j < b.registers@.len() ==> b.offset + (#[trigger] b.registers@[j]).offset <= u64::MAX,
    ensures
        views(final(out)@) == views(old(out)@) + block_items(t@, *b, b.registers@),
{
    let ghost start = views(out@);
    let rs = &b.registers;
    for j in 0..rs.len()
        invariant
            rs == b.registers,
            forall|x: int| 0 <= x < rs@.len() ==> b.offset + (#[trigger] rs@[x]).offset <= u64::MAX,
            views(out@) == start + block_items(t@, *b, rs@.subrange(0, j as int)),
    {
        assert(rs@.subrange(0, j + 1).drop_last() =~= rs@.subrange(0, j as int));
        push_register(t, b, &rs[j], out);
        assert(views(out@) =~= start + block_items(t@, *b, rs@.subrange(0, j + 1)));
    }
    assert(rs@.subrange(0, rs@.len() as int) =~= rs@);
}

/// Emits the items of peripheral `i` of a normalised device.
pub fn emit_peripheral(ps: &Vec<Peripheral>, norm: &Vec<NormalPeripheral>, i: usize, out: &mut Vec<GeneratedItem>)
    requires
        normalized(ps@, norm@),
        peripherals_valid(ps@),
        i < ps@.len(),
    ensures
        views(final(out)@) == views(old(out)@) + peripheral_items(ps@, i as int, norm@[i as int].layout@),
{
    let per = &ps[i];
    let np = &norm[i];
    let rep = np.type_index;
    assert(norm@[i as int].type_index == type_of(ps@, i as int));
    proof {
        lemma_type_of_rep(ps@, i as int);
    }
    let ghost start = views(out@);
    if rep == i {
        let ghost before = out@;
        out.push(GeneratedItem::BlockType { block: per.name.clone() });
        proof {
            lemma_views_push(before, out@.last());
        }
        let ghost head = views(out@);
        let l = &np.layout;
        proof {
            lemma_span_covers(ps@, l@);
        }
        for k in 0..l.len()
            invariant
                i < ps@.len(),
                l == norm@[i as int].layout,
                l@ == crate::layout::resolved_layout(ps@, i as int),
                refs_valid(ps@, l@),
                peripherals_valid(ps@),
                forall|q: int| 0 <= q < l@.len() ==> (#[trigger] block_at(ps@, l@[q])).offset + block_at(ps@, l@[q]).size
                    <= crate::normalize::span(ps@, l@),
                views(out@) == head + layout_items(per.name@, ps@, l@.subrange(0, k as int)),
        {
            assert(l@.subrange(0, k + 1).drop_last() =~= l@.subrange(0, k as int));
            let x = l[k];
            assert(x == l@[k as int]);
            let blk = &ps[x.peripheral].blocks[x.block];
            proof {
                assert(block_at(ps@, l@[k as int]) == *blk);
                assert(end_of(ps@, i as int) <= u64::MAX);
                assert(block_sound(*blk));
                assert forall|j: int| 0 <= j < blk.registers@.len() implies blk.offset + (#[trigger] blk.registers@[j]).offset <= u64::MAX by {
                    assert(register_fits(*blk, blk.registers@[j]));
                }
            }
            push_block(&per.name, blk, out);
            assert(views(out@) =~= head + layout_items(per.name@, ps@, l@.subrange(0, k + 1)));
        }
        assert(l@.subrange(0, l@.len() as int) =~= l@);
    }
    let ghost before = out@;
    out.push(GeneratedItem::Instance {
        name: per.name.clone(),
        block: ps[rep].name.clone(),
        base_address: per.base_address,
    });
    proof {
        lemma_views_push(before, out@.last());
    }
    assert(views(out@) =~= start + peripheral_items(ps@, i as int, norm@[i as int].layout@));
}

proof fn lemma_field_items_accessors(t: Seq<char>, r: Register, fs: Seq<Field>)
    ensures
        forall|k: int| 0 <= k < field_items(t, r, fs).len() && (#[trigger] field_items(t, r, fs)[k]) is FieldAccessor
            ==> exists|i: int| 0 <= i < fs.len() && field_items(t, r, fs)[k] == field_accessor(t, r, #[trigger] fs[i]),
    decreases fs.len(),
{
    if fs.len() > 0 {
        let pre = fs.drop_last();
        lemma_field_items_accessors(t, r, pre);
        let a = field_items(t, r, pre);
        let all = field_items(t, r, fs);
        let vals = value_items(t, r, fs.last());
        assert(all == a + seq![field_accessor(t, r, fs.last())] + vals);
        assert forall|k: int| 0 <= k < all.len() && (#[trigger] all[k]) is FieldAccessor implies
            exists|i: int| 0 <= i < fs.len() && all[k] == field_accessor(t, r, #[trigger] fs[i]) by {
            if k < a.len() {
                assert(all[k] == a[k]);
                let i = choose|i: int| 0 <= i < pre.len() && a[k] == field_accessor(t, r, #[trigger] pre[i]);
                assert(fs[i] == pre[i]);
            } else if k == a.len() {
                assert(all[k] == field_accessor(t, r, fs[fs.len() - 1]));
            } else {
                assert(all[k] == vals[k - a.len() - 1]);
            }
        }
    }
}

/// Each field accessor generated for a register belongs to one of its
/// fields, with a getter exactly where that field is readable and a setter
/// exactly where it is writable; so a read-only field gets no setter and a
/// write-only field no getter. The register's own accessor offers writes
/// only where writable, reads only where readable, and modify only for a
/// read-write register.
pub proof fn accessors_follow_access(t: Seq<char>, b: RegisterBlock, r: Register)
    ensures
        forall|k: int| 0 <= k < register_items(t, b, r).len() && (#[trigger] register_items(t, b, r)[k]) is FieldAccessor
            ==> exists|i: int| 0 <= i < r.fields@.len() && {
                let f = #[trigger] r.fields@[i];
                &&& register_items(t, b, r)[k] == field_accessor(t, r, f)
                &&& register_items(t, b, r)[k]->FieldAccessor_set == writable(effective_access(f, r))
                &&& register_items(t, b, r)[k]->FieldAccessor_get == readable(effective_access(f, r))
            },
        register_items(t, b, r)[0] == register_accessor(t, b, r),
        register_accessor(t, b, r)->RegisterAccessor_modify <==> r.access == Access::ReadWrite,
        r.access == Access::ReadOnly ==> !register_accessor(t, b, r)->RegisterAccessor_write,
        r.access == Access::WriteOnly ==> !register_accessor(t, b, r)->RegisterAccessor_read,
{
    let items = register_items(t, b, r);
    let fi = field_items(t, r, r.fields@);
    lemma_field_items_accessors(t, r, r.fields@);
    assert forall|k: int| 0 <= k < items.len() && (#[trigger] items[k]) is FieldAccessor implies
        exists|i: int| 0 <= i < r.fields@.len() && {
            let f = #[trigger] r.fields@[i];
            &&& items[k] == field_accessor(t, r, f)
            &&& items[k]->FieldAccessor_set == writable(effective_access(f, r))
            &&& items[k]->FieldAccessor_get == readable(effective_access(f, r))
        } by {
        assert(k != 0);
        assert(items[k] == fi[k - 1]);
        let i = choose|i: int| 0 <= i < r.fields@.len() && fi[k - 1] == field_accessor(t, r, #[trigger] r.fields@[i]);
        assert(items[k] == field_accessor(t, r, r.fields@[i]));
    }
}

/// Peripherals with alike layouts share one block type: their instance
/// items name the same type and differ only in instance name and base address.
pub proof fn alike_instances_share_block(ps: Seq<Peripheral>, a: int, b: int)
    requires
        0 <= a < ps.len(),
        0 <= b < ps.len(),
        same_layout(ps, resolved_layout(ps, a), resolved_layout(ps, b)),
    ensures
        instance_item(ps, a)->Instance_block == instance_item(ps, b)->Instance_block,
        instance_item(ps, a)->Instance_base_address == ps[a].base_address,
        instance_item(ps, b)->Instance_base_address == ps[b].base_address,
{
    alike_peripherals_share_type(ps, a, b);
}

} // verus!
