//! Validation of a device and resolution of its peripherals' layouts.

use vstd::prelude::*;
use crate::model::{
    Field, Register, RegisterBlock, Peripheral, Device, effective_access, readable, writable, scopes_meet,
};
use crate::layout::{
    BlockRef, resolved_layout, refs_valid, block_at, derive_resolves, source_of, same_layout,
    find_named, resolve_layout, own_layout, lemma_resolved_derived, layouts_alike, same_block, same_register, same_field,
};
use crate::interrupts::indices_unique;
use vstd::arithmetic::power2::{pow2, lemma_pow2_pos, lemma_pow2_strictly_increases, lemma2_to64};
use vstd::bits::lemma_u64_shr_is_div;

verus! {

/// The first violation found in a device description.
#[derive(Clone, Debug)]
pub enum ModelError {
    /// A derive-from reference names no peripheral, or a derived one declared
    /// after the peripheral that names it.
    DanglingDerive { peripheral: String, source: String },
    /// A field reaches past its register's width, or is empty.
    FieldOutOfRange { peripheral: String, register: String, field: String },
    /// A field permits an access that its register does not.
    FieldAccess { peripheral: String, register: String, field: String },
    /// An enumerated value does not fit its field's width.
    ValueOutOfRange { peripheral: String, register: String, field: String, value: u64 },
    /// Two enumerated values of a field, with a direction in common, share a number.
    DuplicateEnumValue { peripheral: String, register: String, field: String, value: u64 },
    /// A register reaches past the end of its block.
    RegisterOutOfBlock { peripheral: String, block: String, register: String },
    /// Two fields of a register share a bit.
    OverlappingFields { peripheral: String, register: String, first: String, second: String },
    /// A peripheral's register blocks reach past the end of the address space.
    AddressOverflow { peripheral: String },
    /// Two unrelated peripherals share an address.
    OverlappingPeripherals { first: String, second: String },
    /// Two interrupts share a vector index.
    DuplicateInterrupt { index: u32, first: String, second: String },
}

/// The field lies inside its register and takes at least one bit.
pub open spec fn field_fits(r: Register, f: Field) -> bool {
    f.bit_width >= 1 && f.bit_offset + f.bit_width <= r.width
}

/// The field permits no access that its register refuses.
pub open spec fn field_permitted(r: Register, f: Field) -> bool {
    &&& readable(effective_access(f, r)) ==> readable(r.access)
    &&& writable(effective_access(f, r)) ==> writable(r.access)
}

/// The bit ranges of two fields are disjoint.
pub open spec fn fields_apart(a: Field, b: Field) -> bool {
    a.bit_offset + a.bit_width <= b.bit_offset || b.bit_offset + b.bit_width <= a.bit_offset
}

/// Every enumerated value of the field fits in its bits.
pub open spec fn values_fit(f: Field) -> bool {
    forall|k: int| 0 <= k < f.values@.len() ==> (#[trigger] f.values@[k]).value < pow2(f.bit_width as nat)
}

/// Finds an enumerated value of `f` that does not fit in its bits.
pub fn find_wide_value(f: &Field) -> (r: Option<u64>)
    ensures
        r is None <==> values_fit(*f),
        r matches Option::Some(v) ==> exists|k: int|
            0 <= k < f.values@.len() && (#[trigger] f.values@[k]).value == v && v >= pow2(f.bit_width as nat),
{
    let vs = &f.values;
    let w = f.bit_width;
    if w >= 64 {
        proof {
            lemma2_to64();
            if w > 64 {
                lemma_pow2_strictly_increases(64, w as nat);
            }
        }
        return Option::None;
    }
    for k in 0..vs.len()
        invariant
            vs == f.values,
            w == f.bit_width,
            w < 64,
            forall|x: int| 0 <= x < k ==> (#[trigger] vs@[x]).value < pow2(w as nat),
    {
        let v = vs[k].value;
        proof {
            lemma_u64_shr_is_div(v, w as u64);
            lemma_pow2_pos(w as nat);
            let d = pow2(w as nat);
            assert((v as nat / d == 0) == (v < d)) by (nonlinear_arith)
                requires d > 0;
        }
        if v >> (w as u64) != 0 {
            return Option::Some(v);
        }
    }
    Option::None
}

/// No two enumerated values of the field with a direction in common share a number.
pub open spec fn values_distinct(f: Field) -> bool {
    forall|a: int, b: int|
        0 <= a < b < f.values@.len() && scopes_meet(f.values@[a].usage, f.values@[b].usage)
            ==> #[trigger] f.values@[a].value != #[trigger] f.values@[b].value
}

/// Every field of the register fits, is permitted, has distinct values, and
/// no two overlap.
pub open spec fn register_sound(r: Register) -> bool {
    &&& forall|i: int| 0 <= i < r.fields@.len() ==> field_fits(r, #[trigger] r.fields@[i])
    &&& forall|i: int| 0 <= i < r.fields@.len() ==> values_distinct(#[trigger] r.fields@[i])
    &&& forall|i: int| 0 <= i < r.fields@.len() ==> values_fit(#[trigger] r.fields@[i])
    &&& forall|i: int| 0 <= i < r.fields@.len() ==> field_permitted(r, #[trigger] r.fields@[i])
    &&& forall|i: int, j: int|
        0 <= i < j < r.fields@.len() ==> fields_apart(#[trigger] r.fields@[i], #[trigger] r.fields@[j])
}

/// Bytes that a register takes.
pub open spec fn reg_bytes(r: Register) -> nat {
    ((r.width as nat) + 7) / 8
}

/// The register lies inside its block.
pub open spec fn register_fits(b: RegisterBlock, r: Register) -> bool {
    r.offset as nat + reg_bytes(r) <= b.size as nat
}

/// Every register of the block is sound and lies inside it.
pub open spec fn block_sound(b: RegisterBlock) -> bool {
    &&& forall|j: int| 0 <= j < b.registers@.len() ==> register_sound(#[trigger] b.registers@[j])
    &&& forall|j: int| 0 <= j < b.registers@.len() ==> register_fits(b, #[trigger] b.registers@[j])
}

/// Bytes from a peripheral's base to the end of its last register block.
pub open spec fn span(ps: Seq<Peripheral>, l: Seq<BlockRef>) -> nat
    decreases l.len(),
{
    if l.len() == 0 {
        0
    } else {
        let rest = span(ps, l.drop_last());
        let b = block_at(ps, l.last());
        let here = b.offset as nat + b.size as nat;
        if rest >= here { rest } else { here }
    }
}

/// One past the last address of `ps[p]`.
pub open spec fn end_of(ps: Seq<Peripheral>, p: int) -> int {
    ps[p].base_address + span(ps, resolved_layout(ps, p))
}

/// One of the two derives from the other.
pub open spec fn related(ps: Seq<Peripheral>, a: int, b: int) -> bool {
    ||| ps[a].derived_from is Some && source_of(ps, a) == b
    ||| ps[b].derived_from is Some && source_of(ps, b) == a
}

/// The address ranges of two peripherals intersect.
pub open spec fn overlap(ps: Seq<Peripheral>, a: int, b: int) -> bool {
    &&& span(ps, resolved_layout(ps, a)) > 0
    &&& span(ps, resolved_layout(ps, b)) > 0
    &&& ps[a].base_address < end_of(ps, b)
    &&& ps[b].base_address < end_of(ps, a)
}

/// Every invariant of a list of peripherals holds.
pub open spec fn peripherals_valid(ps: Seq<Peripheral>) -> bool {
    &&& forall|p: int| 0 <= p < ps.len() ==> #[trigger] derive_resolves(ps, p)
    &&& forall|p: int, k: int| 0 <= p < ps.len() && 0 <= k < ps[p].blocks@.len()
        ==> block_sound(#[trigger] ps[p].blocks@[k])
    &&& forall|p: int| 0 <= p < ps.len() ==> #[trigger] end_of(ps, p) <= u64::MAX
    &&& forall|a: int, b: int| 0 <= a < b < ps.len() && !related(ps, a, b) ==> !#[trigger] overlap(ps, a, b)
}

/// Every invariant of a device description holds.
pub open spec fn device_valid(d: Device) -> bool {
    &&& peripherals_valid(d.peripherals@)
    &&& indices_unique(d.interrupts@)
}

/// Two enumerated values of `f`, with a direction in common, have the number `v`.
pub open spec fn shares_value(f: Field, v: u64) -> bool {
    exists|a: int, b: int|
        0 <= a < b < f.values@.len() && #[trigger] f.values@[a].value == v && #[trigger] f.values@[b].value == v
            && scopes_meet(f.values@[a].usage, f.values@[b].usage)
}

/// Finds a number that two enumerated values of `f` share.
pub fn find_shared_value(f: &Field) -> (r: Option<u64>)
    ensures
        r is None <==> values_distinct(*f),
        r matches Option::Some(v) ==> shares_value(*f, v),
{
    let vs = &f.values;
    let n = vs.len();
    for b in 0..n
        invariant
            vs == f.values,
            n == vs@.len(),
            forall|x: int, y: int| 0 <= x < y < b && scopes_meet(vs@[x].usage, vs@[y].usage)
                ==> #[trigger] vs@[x].value != #[trigger] vs@[y].value,
    {
        for a in 0..b
            invariant
                vs == f.values,
                n == vs@.len(),
                b < n,
                forall|x: int, y: int| 0 <= x < y < b && scopes_meet(vs@[x].usage, vs@[y].usage)
                    ==> #[trigger] vs@[x].value != #[trigger] vs@[y].value,
                forall|x: int| 0 <= x < a && scopes_meet(vs@[x].usage, vs@[b as int].usage)
                    ==> #[trigger] vs@[x].value != vs@[b as int].value,
        {
            if vs[a].value == vs[b].value && vs[a].usage.meets(&vs[b].usage) {
                assert(vs@[a as int].value == vs[b as int].value);
                return Option::Some(vs[a].value);
            }
        }
    }
    Option::None
}

/// `e` names a field of `r` (in peripheral `pname`) that breaks an invariant.
pub open spec fn register_error(pname: Seq<char>, r: Register, e: ModelError) -> bool {
    let fs = r.fields@;
    match e {
        ModelError::FieldOutOfRange { peripheral, register, field } => peripheral@ == pname
            && register@ == r.name@ && exists|i: int|
            0 <= i < fs.len() && (#[trigger] fs[i]).name@ == field@ && !field_fits(r, fs[i]),
        ModelError::FieldAccess { peripheral, register, field } => peripheral@ == pname
            && register@ == r.name@ && exists|i: int|
            0 <= i < fs.len() && (#[trigger] fs[i]).name@ == field@ && !field_permitted(r, fs[i]),
        ModelError::ValueOutOfRange { peripheral, register, field, value } => peripheral@ == pname
            && register@ == r.name@ && exists|i: int|
            0 <= i < fs.len() && (#[trigger] fs[i]).name@ == field@ && exists|k: int|
                0 <= k < fs[i].values@.len() && (#[trigger] fs[i].values@[k]).value == value
                    && value >= pow2(fs[i].bit_width as nat),
        ModelError::DuplicateEnumValue { peripheral, register, field, value } => peripheral@ == pname
            && register@ == r.name@ && exists|i: int|
            0 <= i < fs.len() && (#[trigger] fs[i]).name@ == field@ && shares_value(fs[i], value),
        ModelError::OverlappingFields { peripheral, register, first, second } => peripheral@ == pname
            && register@ == r.name@ && exists|i: int, k: int|
            0 <= i < k < fs.len() && (#[trigger] fs[i]).name@ == first@ && (#[trigger] fs[k]).name@ == second@
                && !fields_apart(fs[i], fs[k]),
        _ => false,
    }
}

/// `e` names entities of `d` that break the invariant it reports.
pub open spec fn error_holds(d: Device, e: ModelError) -> bool {
    let ps = d.peripherals@;
    let ints = d.interrupts@;
    match e {
        ModelError::DanglingDerive { peripheral, source } => exists|p: int|
            0 <= p < ps.len() && (#[trigger] ps[p]).name@ == peripheral@
                && (ps[p].derived_from matches Option::Some(x) && x@ == source@) && !derive_resolves(ps, p),
        ModelError::AddressOverflow { peripheral } => exists|p: int|
            0 <= p < ps.len() && (#[trigger] ps[p]).name@ == peripheral@ && end_of(ps, p) > u64::MAX,
        ModelError::OverlappingPeripherals { first, second } => exists|a: int, b: int|
            0 <= a < b < ps.len() && (#[trigger] ps[a]).name@ == first@ && (#[trigger] ps[b]).name@ == second@
                && !related(ps, a, b) && overlap(ps, a, b),
        ModelError::DuplicateInterrupt { index, first, second } => exists|i: int, j: int|
            0 <= i < j < ints.len() && (#[trigger] ints[i]).index == index && (#[trigger] ints[j]).index == index
                && ints[i].name@ == first@ && ints[j].name@ == second@,
        ModelError::RegisterOutOfBlock { peripheral, block, register } => exists|p: int, k: int, j: int|
            0 <= p < ps.len() && 0 <= k < ps[p].blocks@.len() && 0 <= j < ps[p].blocks@[k].registers@.len()
                && ps[p].name@ == peripheral@ && ps[p].blocks@[k].name@ == block@
                && (#[trigger] ps[p].blocks@[k].registers@[j]).name@ == register@
                && !register_fits(ps[p].blocks@[k], ps[p].blocks@[k].registers@[j]),
        _ => exists|p: int, k: int, j: int|
            0 <= p < ps.len() && 0 <= k < ps[p].blocks@.len() && 0 <= j < ps[p].blocks@[k].registers@.len()
                && register_error(ps[p].name@, #[trigger] ps[p].blocks@[k].registers@[j], e),
    }
}

/// Checks the fields of one register, in order.
pub fn check_register(pname: &String, r: &Register) -> (res: Option<ModelError>)
    ensures
        res is None <==> register_sound(*r),
        res matches Option::Some(e) ==> register_error(pname@, *r, e),
{
    let fs = &r.fields;
    let n = fs.len();
    for i in 0..n
        invariant
            fs == r.fields,
            n == fs@.len(),
            forall|a: int| 0 <= a < i ==> field_fits(*r, #[trigger] fs@[a]),
            forall|a: int| 0 <= a < i ==> values_distinct(#[trigger] fs@[a]),
            forall|a: int| 0 <= a < i ==> values_fit(#[trigger] fs@[a]),
            forall|a: int| 0 <= a < i ==> field_permitted(*r, #[trigger] fs@[a]),
            forall|a: int, b: int| 0 <= a < b < i ==> fields_apart(#[trigger] fs@[a], #[trigger] fs@[b]),
    {
        let f = &fs[i];
        if f.bit_width == 0 || f.bit_offset as u64 + f.bit_width as u64 > r.width as u64 {
            return Option::Some(ModelError::FieldOutOfRange {
                peripheral: pname.clone(),
                register: r.name.clone(),
                field: f.name.clone(),
            });
        }
        match find_wide_value(f) {
            Option::Some(v) => {
                return Option::Some(ModelError::ValueOutOfRange {
                    peripheral: pname.clone(),
                    register: r.name.clone(),
                    field: f.name.clone(),
                    value: v,
                });
            },
            Option::None => {},
        }
        match find_shared_value(f) {
            Option::Some(v) => {
                return Option::Some(ModelError::DuplicateEnumValue {
                    peripheral: pname.clone(),
                    register: r.name.clone(),
                    field: f.name.clone(),
                    value: v,
                });
            },
            Option::None => {},
        }
        let acc = f.access_in(r);
        if (acc.can_read() && !r.access.can_read()) || (acc.can_write() && !r.access.can_write()) {
            return Option::Some(ModelError::FieldAccess {
                peripheral: pname.clone(),
                register: r.name.clone(),
                field: f.name.clone(),
            });
        }
        for k in 0..i
            invariant
                fs == r.fields,
                n == fs@.len(),
                i < n,
                *f == fs@[i as int],
                forall|a: int| 0 <= a < k ==> fields_apart(#[trigger] fs@[a], fs@[i as int]),
        {
            let g = &fs[k];
            assert(fields_apart(fs@[k as int], fs@[i as int]) == (g.bit_offset as u64 + g.bit_width as u64 <= f.bit_offset as u64
                || f.bit_offset as u64 + f.bit_width as u64 <= g.bit_offset as u64));
            if !(g.bit_offset as u64 + g.bit_width as u64 <= f.bit_offset as u64
                || f.bit_offset as u64 + f.bit_width as u64 <= g.bit_offset as u64) {
                return Option::Some(ModelError::OverlappingFields {
                    peripheral: pname.clone(),
                    register: r.name.clone(),
                    first: g.name.clone(),
                    second: f.name.clone(),
                });
            }
        }
    }
    Option::None
}

/// `e` names a register of block `b` (in peripheral `pname`) that breaks an invariant.
pub open spec fn block_error(pname: Seq<char>, b: RegisterBlock, e: ModelError) -> bool {
    let rs = b.registers@;
    match e {
        ModelError::RegisterOutOfBlock { peripheral, block, register } => peripheral@ == pname
            && block@ == b.name@ && exists|j: int|
            0 <= j < rs.len() && (#[trigger] rs[j]).name@ == register@ && !register_fits(b, rs[j]),
        _ => exists|j: int| 0 <= j < rs.len() && register_error(pname, #[trigger] rs[j], e),
    }
}

proof fn lemma_block_error_holds(d: Device, p: int, k: int, e: ModelError)
    requires
        0 <= p < d.peripherals@.len(),
        0 <= k < d.peripherals@[p].blocks@.len(),
        block_error(d.peripherals@[p].name@, d.peripherals@[p].blocks@[k], e),
    ensures
        error_holds(d, e),
{
    let ps = d.peripherals@;
    let b = ps[p].blocks@[k];
    let rs = b.registers@;
    match e {
        ModelError::RegisterOutOfBlock { peripheral, block, register } => {
            let j = choose|j: int| 0 <= j < rs.len() && (#[trigger] rs[j]).name@ == register@ && !register_fits(b, rs[j]);
            assert(ps[p].blocks@[k].registers@[j] == rs[j]);
        },
        _ => {
            let j = choose|j: int| 0 <= j < rs.len() && register_error(ps[p].name@, #[trigger] rs[j], e);
            assert(ps[p].blocks@[k].registers@[j] == rs[j]);
        },
    }
}

/// Checks the registers of one block, in order.
pub fn check_block(pname: &String, b: &RegisterBlock) -> (res: Option<ModelError>)
    ensures
        res is None <==> block_sound(*b),
        res matches Option::Some(e) ==> block_error(pname@, *b, e),
{
    let rs = &b.registers;
    for j in 0..rs.len()
        invariant
            rs == b.registers,
            forall|x: int| 0 <= x < j ==> register_sound(#[trigger] rs@[x]),
            forall|x: int| 0 <= x < j ==> register_fits(*b, #[trigger] rs@[x]),
    {
        let r = &rs[j];
        if r.offset as u128 + (r.width as u128 + 7) / 8 > b.size as u128 {
            return Option::Some(ModelError::RegisterOutOfBlock {
                peripheral: pname.clone(),
                block: b.name.clone(),
                register: r.name.clone(),
            });
        }
        match check_register(pname, r) {
            Option::Some(e) => {
                return Option::Some(e);
            },
            Option::None => {},
        }
    }
    Option::None
}

/// Bytes from the base to the end of the last register block of a layout.
pub fn layout_span(ps: &Vec<Peripheral>, l: &Vec<BlockRef>) -> (r: u128)
    requires
        refs_valid(ps@, l@),
    ensures
        r as nat == span(ps@, l@),
        r <= 2 * (u64::MAX as u128),
{
    let mut m: u128 = 0;
    let n = l.len();
    for k in 0..n
        invariant
            n == l@.len(),
            refs_valid(ps@, l@),
            m as nat == span(ps@, l@.subrange(0, k as int)),
            m <= 2 * (u64::MAX as u128),
    {
        assert(l@.subrange(0, k + 1).drop_last() =~= l@.subrange(0, k as int));
        let x = l[k];
        assert(x == l@[k as int]);
        let b = &ps[x.peripheral].blocks[x.block];
        let here: u128 = b.offset as u128 + b.size as u128;
        if here > m {
            m = here;
        }
    }
    assert(l@.subrange(0, n as int) =~= l@);
    m
}

/// `j` is the first peripheral, up to `i`, whose layout is alike to that of `ps[i]`.
pub open spec fn is_type_rep(ps: Seq<Peripheral>, i: int, j: int) -> bool {
    &&& 0 <= j <= i
    &&& same_layout(ps, resolved_layout(ps, j), resolved_layout(ps, i))
    &&& forall|k: int| 0 <= k < j ==> !#[trigger] same_layout(ps, resolved_layout(ps, k), resolved_layout(ps, i))
}

/// The peripheral whose generated type `ps[i]` shares.
pub open spec fn type_of(ps: Seq<Peripheral>, i: int) -> int {
    choose|j: int| is_type_rep(ps, i, j)
}

proof fn lemma_type_rep_unique(ps: Seq<Peripheral>, i: int, j: int)
    requires
        is_type_rep(ps, i, j),
    ensures
        type_of(ps, i) == j,
{
    let c = type_of(ps, i);
    assert(is_type_rep(ps, i, c));
    if c < j {
        assert(!same_layout(ps, resolved_layout(ps, c), resolved_layout(ps, i)));
    }
    if j < c {
        assert(!same_layout(ps, resolved_layout(ps, j), resolved_layout(ps, i)));
    }
}

/// A layout is alike to itself.
pub proof fn lemma_same_layout_refl(ps: Seq<Peripheral>, l: Seq<BlockRef>)
    ensures
        same_layout(ps, l, l),
{
}

/// A peripheral of a validated device: its resolved layout and the
/// peripheral whose generated type it shares.
#[derive(Clone, Debug)]
pub struct NormalPeripheral {
    pub layout: Vec<BlockRef>,
    pub type_index: usize,
}

/// `n` is the normalised form of the peripherals `ps`.
pub open spec fn normalized(ps: Seq<Peripheral>, n: Seq<NormalPeripheral>) -> bool {
    &&& n.len() == ps.len()
    &&& forall|i: int| 0 <= i < n.len() ==> (#[trigger] n[i]).layout@ == resolved_layout(ps, i)
        && n[i].type_index == type_of(ps, i) && refs_valid(ps, n[i].layout@)
}

fn copy_refs(v: &Vec<BlockRef>) -> (r: Vec<BlockRef>)
    ensures
        r@ == v@,
{
    let mut r: Vec<BlockRef> = Vec::new();
    for k in 0..v.len()
        invariant
            r@ == v@.subrange(0, k as int),
    {
        r.push(v[k]);
    }
    assert(r@ =~= v@);
    r
}

fn check_overlaps(
    ps: &Vec<Peripheral>,
    srcs: &Vec<Option<usize>>,
    spans: &Vec<u128>,
    ends: &Vec<u128>,
) -> (res: Option<ModelError>)
    requires
        srcs@.len() == ps@.len(),
        spans@.len() == ps@.len(),
        ends@.len() == ps@.len(),
        forall|p: int| 0 <= p < ps@.len() ==> #[trigger] derive_resolves(ps@, p),
        forall|p: int| 0 <= p < ps@.len() ==> (#[trigger] srcs@[p] is None <==> ps@[p].derived_from is None)
            && (srcs@[p] matches Option::Some(s) ==> s == source_of(ps@, p)),
        forall|p: int| 0 <= p < ps@.len() ==> #[trigger] spans@[p] == span(ps@, resolved_layout(ps@, p)),
        forall|p: int| 0 <= p < ps@.len() ==> #[trigger] ends@[p] == end_of(ps@, p),
    ensures
        res is None <==> forall|a: int, b: int|
            0 <= a < b < ps@.len() && !related(ps@, a, b) ==> !#[trigger] overlap(ps@, a, b),
        res matches Option::Some(e) ==> (e matches ModelError::OverlappingPeripherals { first, second }
            && exists|a: int, b: int| 0 <= a < b < ps@.len() && (#[trigger] ps@[a]).name@ == first@
                && (#[trigger] ps@[b]).name@ == second@ && !related(ps@, a, b) && overlap(ps@, a, b)),
{
    let n = ps.len();
    for b in 0..n
        invariant
            n == ps@.len(),
            srcs@.len() == n,
            spans@.len() == n,
            ends@.len() == n,
            forall|p: int| 0 <= p < ps@.len() ==> (#[trigger] srcs@[p] is None <==> ps@[p].derived_from is None)
                && (srcs@[p] matches Option::Some(s) ==> s == source_of(ps@, p)),
            forall|p: int| 0 <= p < ps@.len() ==> #[trigger] spans@[p] == span(ps@, resolved_layout(ps@, p)),
            forall|p: int| 0 <= p < ps@.len() ==> #[trigger] ends@[p] == end_of(ps@, p),
            forall|x: int, y: int| 0 <= x < y < b && !related(ps@, x, y) ==> !#[trigger] overlap(ps@, x, y),
    {
        for a in 0..b
            invariant
                n == ps@.len(),
                b < n,
                srcs@.len() == n,
                spans@.len() == n,
                ends@.len() == n,
                forall|p: int| 0 <= p < ps@.len() ==> (#[trigger] srcs@[p] is None <==> ps@[p].derived_from is None)
                    && (srcs@[p] matches Option::Some(s) ==> s == source_of(ps@, p)),
                forall|p: int| 0 <= p < ps@.len() ==> #[trigger] spans@[p] == span(ps@, resolved_layout(ps@, p)),
                forall|p: int| 0 <= p < ps@.len() ==> #[trigger] ends@[p] == end_of(ps@, p),
                forall|x: int, y: int| 0 <= x < y < b && !related(ps@, x, y) ==> !#[trigger] overlap(ps@, x, y),
                forall|x: int| 0 <= x < a && !related(ps@, x, b as int) ==> !#[trigger] overlap(ps@, x, b as int),
        {
            let a_from_b = match srcs[a] {
                Option::Some(s) => s == b,
                Option::None => false,
            };
            let b_from_a = match srcs[b] {
                Option::Some(s) => s == a,
                Option::None => false,
            };
            let rel = a_from_b || b_from_a;
            assert(rel == related(ps@, a as int, b as int));
            let ov = spans[a] > 0 && spans[b] > 0 && (ps[a].base_address as u128) < ends[b]
                && (ps[b].base_address as u128) < ends[a];
            assert(ov == overlap(ps@, a as int, b as int));
            if !rel && ov {
                return Option::Some(ModelError::OverlappingPeripherals {
                    first: ps[a].name.clone(),
                    second: ps[b].name.clone(),
                });
            }
        }
    }
    Option::None
}

/// Validates a device and resolves its peripherals: the layout of each, and
/// which peripheral's generated type it shares. Fails on the first violation,
/// in peripheral order, then register order, then field order; address
/// overlaps and interrupt indices are checked after that.
pub fn normalize(d: &Device) -> (r: Result<Vec<NormalPeripheral>, ModelError>)
    ensures
        r is Ok <==> device_valid(*d),
        r matches Ok(n) ==> normalized(d.peripherals@, n@),
        r matches Err(e) ==> error_holds(*d, e),
{
    let ps = &d.peripherals;
    let n = ps.len();
    let mut layouts: Vec<Vec<BlockRef>> = Vec::new();
    let mut srcs: Vec<Option<usize>> = Vec::new();
    let mut spans: Vec<u128> = Vec::new();
    let mut ends: Vec<u128> = Vec::new();
    for p in 0..n
        invariant
            ps == d.peripherals,
            n == ps@.len(),
            layouts@.len() == p,
            srcs@.len() == p,
            spans@.len() == p,
            ends@.len() == p,
            forall|q: int| 0 <= q < p ==> #[trigger] derive_resolves(ps@, q),
            forall|q: int, k: int| 0 <= q < p && 0 <= k < ps@[q].blocks@.len()
                ==> block_sound(#[trigger] ps@[q].blocks@[k]),
            forall|q: int| 0 <= q < p ==> (#[trigger] layouts@[q])@ == resolved_layout(ps@, q)
                && refs_valid(ps@, layouts@[q]@),
            forall|q: int| 0 <= q < p ==> (#[trigger] srcs@[q] is None <==> ps@[q].derived_from is None)
                && (srcs@[q] matches Option::Some(s) ==> s == source_of(ps@, q)),
            forall|q: int| 0 <= q < p ==> #[trigger] spans@[q] == span(ps@, resolved_layout(ps@, q)),
            forall|q: int| 0 <= q < p ==> #[trigger] ends@[q] == end_of(ps@, q),
            forall|q: int| 0 <= q < p ==> #[trigger] end_of(ps@, q) <= u64::MAX,
    {
        let per = &ps[p];
        let source: Option<usize> = match &per.derived_from {
            Option::None => Option::None,
            Option::Some(name) => {
                match find_named(ps, name) {
                    Option::Some(s) => {
                        if ps[s].derived_from.is_some() && s >= p {
                            assert(!derive_resolves(ps@, p as int));
                            return Err(ModelError::DanglingDerive {
                                peripheral: per.name.clone(),
                                source: name.clone(),
                            });
                        }
                        Option::Some(s)
                    },
                    Option::None => {
                        assert(!derive_resolves(ps@, p as int));
                        return Err(ModelError::DanglingDerive {
                            peripheral: per.name.clone(),
                            source: name.clone(),
                        });
                    },
                }
            },
        };
        let blocks = &per.blocks;
        for k in 0..blocks.len()
            invariant
                ps == d.peripherals,
                p < ps@.len(),
                *per == ps@[p as int],
                blocks == per.blocks,
                forall|q: int, x: int| 0 <= q < p && 0 <= x < ps@[q].blocks@.len()
                    ==> block_sound(#[trigger] ps@[q].blocks@[x]),
                forall|x: int| 0 <= x < k ==> block_sound(#[trigger] ps@[p as int].blocks@[x]),
        {
            match check_block(&per.name, &blocks[k]) {
                Option::Some(e) => {
                    proof {
                        lemma_block_error_holds(*d, p as int, k as int, e);
                    }
                    return Err(e);
                },
                Option::None => {},
            }
        }
        let l = match source {
            Option::None => resolve_layout(ps, p, Option::None),
            Option::Some(s) => {
                proof {
                    lemma_resolved_derived(ps@, p as int);
                }
                if s < p {
                    resolve_layout(ps, p, Option::Some(&layouts[s]))
                } else {
                    let sl = own_layout(ps, s);
                    resolve_layout(ps, p, Option::Some(&sl))
                }
            },
        };
        let sp = layout_span(ps, &l);
        let end = per.base_address as u128 + sp;
        if end > u64::MAX as u128 {
            assert(end_of(ps@, p as int) > u64::MAX);
            return Err(ModelError::AddressOverflow { peripheral: per.name.clone() });
        }
        layouts.push(l);
        srcs.push(source);
        spans.push(sp);
        ends.push(end);
    }
    match check_overlaps(ps, &srcs, &spans, &ends) {
        Option::Some(e) => {
            return Err(e);
        },
        Option::None => {},
    }
    match crate::interrupts::find_collision(&d.interrupts) {
        Option::Some((i, j)) => {
            return Err(ModelError::DuplicateInterrupt {
                index: d.interrupts[i].index,
                first: d.interrupts[i].name.clone(),
                second: d.interrupts[j].name.clone(),
            });
        },
        Option::None => {},
    }
    let mut out: Vec<NormalPeripheral> = Vec::new();
    for i in 0..n
        invariant
            ps == d.peripherals,
            n == ps@.len(),
            layouts@.len() == n,
            forall|q: int| 0 <= q < n ==> (#[trigger] layouts@[q])@ == resolved_layout(ps@, q)
                && refs_valid(ps@, layouts@[q]@),
            out@.len() == i,
            forall|q: int| 0 <= q < i ==> (#[trigger] out@[q]).layout@ == resolved_layout(ps@, q)
                && out@[q].type_index == type_of(ps@, q) && refs_valid(ps@, out@[q].layout@),
    {
        let mut rep: usize = i;
        let mut j: usize = 0;
        proof {
            lemma_same_layout_refl(ps@, resolved_layout(ps@, i as int));
        }
        while j < i && rep == i
            invariant
                j <= i < n,
                n == ps@.len(),
                layouts@.len() == n,
                forall|q: int| 0 <= q < n ==> (#[trigger] layouts@[q])@ == resolved_layout(ps@, q)
                    && refs_valid(ps@, layouts@[q]@),
                is_type_rep(ps@, i as int, rep as int) || rep == i,
                rep == i ==> forall|k: int| 0 <= k < j ==> !#[trigger] same_layout(ps@, resolved_layout(ps@, k), resolved_layout(ps@, i as int)),
                rep < i ==> is_type_rep(ps@, i as int, rep as int),
            decreases i - j,
        {
            if layouts_alike(ps, &layouts[j], &layouts[i]) {
                rep = j;
            }
            j = j + 1;
        }
        proof {
            if rep == i {
                assert(is_type_rep(ps@, i as int, i as int));
            }
            lemma_type_rep_unique(ps@, i as int, rep as int);
        }
        out.push(NormalPeripheral { layout: copy_refs(&layouts[i]), type_index: rep });
    }
    Ok(out)
}

proof fn lemma_same_register_sym_trans(x: Register, y: Register, z: Register)
    ensures
        same_register(x, y) ==> same_register(y, x),
        same_register(x, y) && same_register(y, z) ==> same_register(x, z),
{
    if same_register(x, y) {
        assert forall|f: int| 0 <= f < y.fields@.len() implies same_field(#[trigger] y.fields@[f], x.fields@[f]) by {
            assert(same_field(x.fields@[f], y.fields@[f]));
        }
        if same_register(y, z) {
            assert forall|f: int| 0 <= f < x.fields@.len() implies same_field(#[trigger] x.fields@[f], z.fields@[f]) by {
                assert(same_field(x.fields@[f], y.fields@[f]));
                assert(same_field(y.fields@[f], z.fields@[f]));
            }
        }
    }
}

proof fn lemma_same_block_sym_trans(x: RegisterBlock, y: RegisterBlock, z: RegisterBlock)
    ensures
        same_block(x, y) ==> same_block(y, x),
        same_block(x, y) && same_block(y, z) ==> same_block(x, z),
{
    if same_block(x, y) {
        assert forall|j: int| 0 <= j < y.registers@.len() implies same_register(#[trigger] y.registers@[j], x.registers@[j]) by {
            lemma_same_register_sym_trans(x.registers@[j], y.registers@[j], x.registers@[j]);
        }
        if same_block(y, z) {
            assert forall|j: int| 0 <= j < x.registers@.len() implies same_register(#[trigger] x.registers@[j], z.registers@[j]) by {
                lemma_same_register_sym_trans(x.registers@[j], y.registers@[j], z.registers@[j]);
            }
        }
    }
}

proof fn lemma_same_layout_sym_trans(ps: Seq<Peripheral>, a: Seq<BlockRef>, b: Seq<BlockRef>, c: Seq<BlockRef>)
    ensures
        same_layout(ps, a, b) ==> same_layout(ps, b, a),
        same_layout(ps, a, b) && same_layout(ps, b, c) ==> same_layout(ps, a, c),
{
    if same_layout(ps, a, b) {
        assert forall|k: int| 0 <= k < b.len() implies same_block(block_at(ps, #[trigger] b[k]), block_at(ps, a[k])) by {
            lemma_same_block_sym_trans(block_at(ps, a[k]), block_at(ps, b[k]), block_at(ps, a[k]));
        }
        if same_layout(ps, b, c) {
            assert forall|k: int| 0 <= k < a.len() implies same_block(block_at(ps, #[trigger] a[k]), block_at(ps, c[k])) by {
                lemma_same_block_sym_trans(block_at(ps, a[k]), block_at(ps, b[k]), block_at(ps, c[k]));
            }
        }
    }
}

proof fn lemma_rep_below(ps: Seq<Peripheral>, i: int, k: int)
    requires
        0 <= k <= i,
        same_layout(ps, resolved_layout(ps, k), resolved_layout(ps, i)),
    ensures
        is_type_rep(ps, i, type_of(ps, i)),
    decreases k,
{
    if exists|q: int| 0 <= q < k && #[trigger] same_layout(ps, resolved_layout(ps, q), resolved_layout(ps, i)) {
        let q = choose|q: int| 0 <= q < k && #[trigger] same_layout(ps, resolved_layout(ps, q), resolved_layout(ps, i));
        lemma_rep_below(ps, i, q);
    } else {
        assert(is_type_rep(ps, i, k));
    }
}

/// Peripherals whose resolved layouts are alike share one generated type.
pub proof fn alike_peripherals_share_type(ps: Seq<Peripheral>, a: int, b: int)
    requires
        0 <= a < ps.len(),
        0 <= b < ps.len(),
        same_layout(ps, resolved_layout(ps, a), resolved_layout(ps, b)),
    ensures
        type_of(ps, a) == type_of(ps, b),
{
    let la = resolved_layout(ps, a);
    let lb = resolved_layout(ps, b);
    lemma_same_layout_refl(ps, la);
    lemma_same_layout_refl(ps, lb);
    lemma_rep_below(ps, a, a);
    lemma_rep_below(ps, b, b);
    let ra = type_of(ps, a);
    let rb = type_of(ps, b);
    let lra = resolved_layout(ps, ra);
    let lrb = resolved_layout(ps, rb);
    lemma_same_layout_sym_trans(ps, la, lb, la);
    lemma_same_layout_sym_trans(ps, lra, la, lb);
    lemma_same_layout_sym_trans(ps, lrb, lb, la);
    if ra < rb {
        assert(!same_layout(ps, lra, lb));
    }
    if rb < ra {
        assert(!same_layout(ps, lrb, la));
    }
}

/// Every peripheral has a type representative at or before it.
pub proof fn lemma_type_of_rep(ps: Seq<Peripheral>, i: int)
    requires
        0 <= i < ps.len(),
    ensures
        is_type_rep(ps, i, type_of(ps, i)),
{
    lemma_same_layout_refl(ps, resolved_layout(ps, i));
    lemma_rep_below(ps, i, i);
}

/// Every block of a layout ends within the layout's span.
pub proof fn lemma_span_covers(ps: Seq<Peripheral>, l: Seq<BlockRef>)
    ensures
        forall|q: int| 0 <= q < l.len() ==> (#[trigger] block_at(ps, l[q])).offset + block_at(ps, l[q]).size <= span(ps, l),
    decreases l.len(),
{
    if l.len() > 0 {
        lemma_span_covers(ps, l.drop_last());
        assert forall|q: int| 0 <= q < l.len() implies (#[trigger] block_at(ps, l[q])).offset + block_at(ps, l[q]).size <= span(ps, l) by {
            if q < l.len() - 1 {
                assert(l.drop_last()[q] == l[q]);
            }
        }
    }
}

} // verus!
