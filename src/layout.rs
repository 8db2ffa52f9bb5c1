//! Resolved layouts: derive-from resolution and structural equality.

use vstd::prelude::*;
use crate::model::{EnumValue, Field, Register, RegisterBlock, Peripheral};

verus! {

/// Names block `block` of peripheral `peripheral` in the device's list.
#[derive(Clone, Copy, Debug, PartialEq, Eq, Structural)]
pub struct BlockRef {
    pub peripheral: usize,
    pub block: usize,
}

/// `k` is the first peripheral called `name`.
pub open spec fn names_first(ps: Seq<Peripheral>, name: Seq<char>, k: int) -> bool {
    &&& 0 <= k < ps.len()
    &&& ps[k].name@ == name
    &&& forall|q: int| 0 <= q < k ==> (#[trigger] ps[q]).name@ != name
}

/// Some peripheral is called `name`.
pub open spec fn has_named(ps: Seq<Peripheral>, name: Seq<char>) -> bool {
    exists|k: int| 0 <= k < ps.len() && (#[trigger] ps[k]).name@ == name
}

/// The first peripheral called `name` (meaningful where one is).
pub open spec fn index_named(ps: Seq<Peripheral>, name: Seq<char>) -> int {
    choose|k: int| names_first(ps, name, k)
}

/// There is only one first peripheral of a name.
pub proof fn lemma_names_first_unique(ps: Seq<Peripheral>, name: Seq<char>, k: int)
    requires
        names_first(ps, name, k),
    ensures
        index_named(ps, name) == k,
{
    let c = index_named(ps, name);
    assert(names_first(ps, name, c));
    if c < k {
        assert(ps[c].name@ != name);
    }
    if k < c {
        assert(ps[k].name@ != name);
    }
}

/// Finds the first peripheral called `name`.
pub fn find_named(ps: &Vec<Peripheral>, name: &String) -> (r: Option<usize>)
    ensures
        r is None <==> !has_named(ps@, name@),
        r matches Option::Some(k) ==> names_first(ps@, name@, k as int) && index_named(ps@, name@) == k,
{
    let n = ps.len();
    for i in 0..n
        invariant
            n == ps@.len(),
            forall|q: int| 0 <= q < i ==> (#[trigger] ps@[q]).name@ != name@,
    {
        if ps[i].name == *name {
            proof {
                lemma_names_first_unique(ps@, name@, i as int);
            }
            return Option::Some(i);
        }
    }
    Option::None
}

/// Some block of `own` is called `name`.
pub open spec fn redefined(own: Seq<RegisterBlock>, name: Seq<char>) -> bool {
    exists|j: int| 0 <= j < own.len() && (#[trigger] own[j]).name@ == name
}

/// The entries of the layout `src` whose blocks `own` does not redefine, in order.
pub open spec fn inherited(ps: Seq<Peripheral>, src: Seq<BlockRef>, own: Seq<RegisterBlock>) -> Seq<BlockRef>
    decreases src.len(),
{
    if src.len() == 0 {
        Seq::empty()
    } else {
        let rest = inherited(ps, src.drop_last(), own);
        if redefined(own, block_at(ps, src.last()).name@) {
            rest
        } else {
            rest.push(src.last())
        }
    }
}

/// References to all `n` blocks of peripheral `p`, in order.
pub open spec fn own_refs(p: int, n: nat) -> Seq<BlockRef> {
    Seq::new(n, |j: int| BlockRef { peripheral: p as usize, block: j as usize })
}

/// The peripheral that `ps[p]` derives from.
pub open spec fn source_of(ps: Seq<Peripheral>, p: int) -> int {
    index_named(ps, ps[p].derived_from->Some_0@)
}

/// The derive-from reference of `ps[p]`, if any, names a peripheral that
/// declares its own layout, or a derived one declared before `ps[p]`; so
/// chains of derivation are finite and without cycles.
pub open spec fn derive_resolves(ps: Seq<Peripheral>, p: int) -> bool {
    match ps[p].derived_from {
        Option::None => true,
        Option::Some(src) => has_named(ps, src@)
            && (ps[index_named(ps, src@)].derived_from is None || index_named(ps, src@) < p),
    }
}

/// The layout of `ps[p]`: the resolved layout of its source without the
/// blocks it redefines by name, then its own register blocks.
pub open spec fn resolved_layout(ps: Seq<Peripheral>, p: int) -> Seq<BlockRef>
    decreases p,
{
    if !(0 <= p < ps.len()) {
        Seq::empty()
    } else {
        let own = ps[p].blocks@;
        match ps[p].derived_from {
            Option::None => own_refs(p, own.len()),
            Option::Some(_) => {
                let s = source_of(ps, p);
                let src = if 0 <= s < p {
                    resolved_layout(ps, s)
                } else {
                    own_refs(s, ps[s].blocks@.len())
                };
                inherited(ps, src, own) + own_refs(p, own.len())
            },
        }
    }
}

/// The register block a reference names.
pub open spec fn block_at(ps: Seq<Peripheral>, r: BlockRef) -> RegisterBlock {
    ps[r.peripheral as int].blocks@[r.block as int]
}

/// Every reference of `l` names a register block of `ps`.
pub open spec fn refs_valid(ps: Seq<Peripheral>, l: Seq<BlockRef>) -> bool {
    forall|k: int|
        0 <= k < l.len() ==> (#[trigger] l[k]).peripheral < ps.len()
            && l[k].block < ps[l[k].peripheral as int].blocks@.len()
}

fn has_block_named(own: &Vec<RegisterBlock>, name: &String) -> (r: bool)
    ensures
        r == redefined(own@, name@),
{
    let n = own.len();
    for j in 0..n
        invariant
            n == own@.len(),
            forall|q: int| 0 <= q < j ==> (#[trigger] own@[q]).name@ != name@,
    {
        if own[j].name == *name {
            return true;
        }
    }
    false
}

proof fn lemma_inherited_members(ps: Seq<Peripheral>, src: Seq<BlockRef>, own: Seq<RegisterBlock>)
    ensures
        forall|k: int| 0 <= k < inherited(ps, src, own).len() ==>
            src.contains(#[trigger] inherited(ps, src, own)[k])
                && !redefined(own, block_at(ps, inherited(ps, src, own)[k]).name@),
        forall|j: int| 0 <= j < src.len() && !redefined(own, block_at(ps, #[trigger] src[j]).name@) ==>
            inherited(ps, src, own).contains(src[j]),
    decreases src.len(),
{
    if src.len() > 0 {
        let pre = src.drop_last();
        let rest = inherited(ps, pre, own);
        lemma_inherited_members(ps, pre, own);
        let all = inherited(ps, src, own);
        assert forall|k: int| 0 <= k < all.len() implies
            src.contains(#[trigger] all[k]) && !redefined(own, block_at(ps, all[k]).name@) by {
            if k < rest.len() {
                assert(all[k] == rest[k]);
                let w = choose|w: int| 0 <= w < pre.len() && pre[w] == rest[k];
                assert(src[w] == pre[w]);
            } else {
                assert(all[k] == src[src.len() - 1]);
            }
        }
        assert forall|j: int| 0 <= j < src.len() && !redefined(own, block_at(ps, #[trigger] src[j]).name@) implies
            all.contains(src[j]) by {
            if j < src.len() - 1 {
                assert(pre[j] == src[j]);
                let w = choose|w: int| 0 <= w < rest.len() && rest[w] == pre[j];
                assert(all[w] == rest[w]);
            } else {
                assert(all[all.len() - 1] == src[j]);
            }
        }
    }
}

proof fn lemma_inherited_valid(ps: Seq<Peripheral>, src: Seq<BlockRef>, own: Seq<RegisterBlock>)
    requires
        refs_valid(ps, src),
    ensures
        refs_valid(ps, inherited(ps, src, own)),
{
    lemma_inherited_members(ps, src, own);
    let inh = inherited(ps, src, own);
    assert forall|k: int| 0 <= k < inh.len() implies (#[trigger] inh[k]).peripheral < ps.len()
        && inh[k].block < ps[inh[k].peripheral as int].blocks@.len() by {
        let w = choose|w: int| 0 <= w < src.len() && src[w] == inh[k];
    }
}

/// The layout of a derived peripheral is its source's resolved layout,
/// without the blocks it redefines, followed by its own blocks.
pub proof fn lemma_resolved_derived(ps: Seq<Peripheral>, p: int)
    requires
        0 <= p < ps.len(),
        ps[p].derived_from is Some,
        derive_resolves(ps, p),
    ensures
        0 <= source_of(ps, p) < ps.len(),
        source_of(ps, p) != p,
        resolved_layout(ps, p) == inherited(ps, resolved_layout(ps, source_of(ps, p)), ps[p].blocks@)
            + own_refs(p, ps[p].blocks@.len()),
{
    lemma_first_named(ps, ps[p].derived_from->Some_0@);
}

proof fn lemma_first_below(ps: Seq<Peripheral>, name: Seq<char>, k: int)
    requires
        0 <= k < ps.len(),
        ps[k].name@ == name,
    ensures
        names_first(ps, name, index_named(ps, name)),
    decreases k,
{
    if exists|q: int| 0 <= q < k && (#[trigger] ps[q]).name@ == name {
        let q = choose|q: int| 0 <= q < k && (#[trigger] ps[q]).name@ == name;
        lemma_first_below(ps, name, q);
    } else {
        assert(names_first(ps, name, k));
    }
}

/// Where some peripheral bears a name, the first one that does is found.
pub proof fn lemma_first_named(ps: Seq<Peripheral>, name: Seq<char>)
    requires
        has_named(ps, name),
    ensures
        names_first(ps, name, index_named(ps, name)),
{
    let k = choose|k: int| 0 <= k < ps.len() && (#[trigger] ps[k]).name@ == name;
    lemma_first_below(ps, name, k);
}

/// References to all blocks of `ps[p]`, in order.
pub fn own_layout(ps: &Vec<Peripheral>, p: usize) -> (r: Vec<BlockRef>)
    requires
        p < ps@.len(),
    ensures
        r@ == own_refs(p as int, ps@[p as int].blocks@.len()),
        refs_valid(ps@, r@),
{
    let mut out: Vec<BlockRef> = Vec::new();
    let m = ps[p].blocks.len();
    for j in 0..m
        invariant
            p < ps@.len(),
            m == ps@[p as int].blocks@.len(),
            out@ == own_refs(p as int, j as nat),
    {
        out.push(BlockRef { peripheral: p, block: j });
        assert(out@ =~= own_refs(p as int, (j + 1) as nat));
    }
    out
}

/// Resolves the layout of `ps[p]`, given the resolved layout of its source
/// where it derives from one.
pub fn resolve_layout(ps: &Vec<Peripheral>, p: usize, source: Option<&Vec<BlockRef>>) -> (r: Vec<BlockRef>)
    requires
        p < ps@.len(),
        derive_resolves(ps@, p as int),
        ps@[p as int].derived_from is None ==> source is None,
        ps@[p as int].derived_from is Some ==> (source matches Option::Some(v)
            && v@ == resolved_layout(ps@, source_of(ps@, p as int)) && refs_valid(ps@, v@)),
    ensures
        r@ == resolved_layout(ps@, p as int),
        refs_valid(ps@, r@),
{
    let mut out: Vec<BlockRef> = Vec::new();
    let own = &ps[p].blocks;
    match source {
        Option::Some(src) => {
            let n = src.len();
            for j in 0..n
                invariant
                    own == ps@[p as int].blocks,
                    n == src@.len(),
                    out@ == inherited(ps@, src@.subrange(0, j as int), own@),
                    refs_valid(ps@, src@),
            {
                assert(src@.subrange(0, j + 1).drop_last() =~= src@.subrange(0, j as int));
                let x = src[j];
                assert(x == src@[j as int]);
                if !has_block_named(own, &ps[x.peripheral].blocks[x.block].name) {
                    out.push(x);
                }
            }
            assert(src@.subrange(0, n as int) =~= src@);
            proof {
                lemma_inherited_valid(ps@, src@, own@);
                lemma_resolved_derived(ps@, p as int);
            }
        },
        Option::None => {},
    }
    let mut mine = own_layout(ps, p);
    out.append(&mut mine);
    assert(out@ =~= resolved_layout(ps@, p as int));
    out
}

/// Two enumerated-value sets list the same names and values in order.
pub open spec fn same_values(a: Seq<EnumValue>, b: Seq<EnumValue>) -> bool {
    &&& a.len() == b.len()
    &&& forall|k: int| 0 <= k < a.len() ==> (#[trigger] a[k]).name@ == b[k].name@ && a[k].value == b[k].value
        && a[k].usage == b[k].usage
}

/// Two fields are alike in every part.
pub open spec fn same_field(a: Field, b: Field) -> bool {
    &&& a.name@ == b.name@
    &&& a.bit_offset == b.bit_offset
    &&& a.bit_width == b.bit_width
    &&& a.access == b.access
    &&& same_values(a.values@, b.values@)
}

/// Two registers are alike in every part.
pub open spec fn same_register(a: Register, b: Register) -> bool {
    &&& a.name@ == b.name@
    &&& a.offset == b.offset
    &&& a.width == b.width
    &&& a.access == b.access
    &&& a.reset_value == b.reset_value
    &&& a.fields@.len() == b.fields@.len()
    &&& forall|k: int| 0 <= k < a.fields@.len() ==> same_field(#[trigger] a.fields@[k], b.fields@[k])
}

/// Two register blocks are alike in every part.
pub open spec fn same_block(a: RegisterBlock, b: RegisterBlock) -> bool {
    &&& a.name@ == b.name@
    &&& a.offset == b.offset
    &&& a.size == b.size
    &&& a.registers@.len() == b.registers@.len()
    &&& forall|k: int| 0 <= k < a.registers@.len() ==> same_register(#[trigger] a.registers@[k], b.registers@[k])
}

/// Two layouts list alike register blocks in the same order.
pub open spec fn same_layout(ps: Seq<Peripheral>, a: Seq<BlockRef>, b: Seq<BlockRef>) -> bool {
    &&& a.len() == b.len()
    &&& forall|k: int| 0 <= k < a.len() ==> same_block(block_at(ps, #[trigger] a[k]), block_at(ps, b[k]))
}

fn values_alike(a: &Vec<EnumValue>, b: &Vec<EnumValue>) -> (r: bool)
    ensures
        r == same_values(a@, b@),
{
    if a.len() != b.len() {
        return false;
    }
    let n = a.len();
    for k in 0..n
        invariant
            n == a@.len(),
            n == b@.len(),
            forall|q: int| 0 <= q < k ==> (#[trigger] a@[q]).name@ == b@[q].name@ && a@[q].value == b@[q].value
                && a@[q].usage == b@[q].usage,
    {
        if !(a[k].name == b[k].name && a[k].value == b[k].value && a[k].usage == b[k].usage) {
            return false;
        }
    }
    true
}

fn fields_alike(a: &Field, b: &Field) -> (r: bool)
    ensures
        r == same_field(*a, *b),
{
    a.name == b.name && a.bit_offset == b.bit_offset && a.bit_width == b.bit_width
        && a.access == b.access && values_alike(&a.values, &b.values)
}

fn registers_alike(a: &Register, b: &Register) -> (r: bool)
    ensures
        r == same_register(*a, *b),
{
    if !(a.name == b.name && a.offset == b.offset && a.width == b.width && a.access == b.access
        && a.reset_value == b.reset_value && a.fields.len() == b.fields.len()) {
        return false;
    }
    let n = a.fields.len();
    for k in 0..n
        invariant
            n == a.fields@.len(),
            n == b.fields@.len(),
            forall|q: int| 0 <= q < k ==> same_field(#[trigger] a.fields@[q], b.fields@[q]),
    {
        if !fields_alike(&a.fields[k], &b.fields[k]) {
            return false;
        }
    }
    true
}

fn blocks_alike(a: &RegisterBlock, b: &RegisterBlock) -> (r: bool)
    ensures
        r == same_block(*a, *b),
{
    if !(a.name == b.name && a.offset == b.offset && a.size == b.size
        && a.registers.len() == b.registers.len()) {
        return false;
    }
    let n = a.registers.len();
    for k in 0..n
        invariant
            n == a.registers@.len(),
            n == b.registers@.len(),
            forall|q: int| 0 <= q < k ==> same_register(#[trigger] a.registers@[q], b.registers@[q]),
    {
        if !registers_alike(&a.registers[k], &b.registers[k]) {
            return false;
        }
    }
    true
}

/// Whether two layouts of `ps` list alike register blocks in the same order.
pub fn layouts_alike(ps: &Vec<Peripheral>, a: &Vec<BlockRef>, b: &Vec<BlockRef>) -> (r: bool)
    requires
        refs_valid(ps@, a@),
        refs_valid(ps@, b@),
    ensures
        r == same_layout(ps@, a@, b@),
{
    if a.len() != b.len() {
        return false;
    }
    let n = a.len();
    for k in 0..n
        invariant
            n == a@.len(),
            n == b@.len(),
            refs_valid(ps@, a@),
            refs_valid(ps@, b@),
            forall|q: int| 0 <= q < k ==> same_block(block_at(ps@, #[trigger] a@[q]), block_at(ps@, b@[q])),
    {
        let x = a[k];
        let y = b[k];
        assert(x == a@[k as int]);
        if !blocks_alike(&ps[x.peripheral].blocks[x.block], &ps[y.peripheral].blocks[y.block]) {
            return false;
        }
    }
    true
}

/// A derived peripheral's layout holds every entry of its source's resolved
/// layout whose block it does not redefine, and every block of its own; any
/// other entry is one of its own blocks.
pub proof fn derived_layout_inherits(ps: Seq<Peripheral>, p: int)
    requires
        0 <= p < ps.len() <= usize::MAX,
        ps[p].blocks@.len() <= usize::MAX,
        ps[p].derived_from is Some,
        derive_resolves(ps, p),
    ensures
        ({
            let src = resolved_layout(ps, source_of(ps, p));
            let l = resolved_layout(ps, p);
            let own = ps[p].blocks@;
            &&& forall|j: int| 0 <= j < src.len() && !redefined(own, block_at(ps, #[trigger] src[j]).name@)
                ==> l.contains(src[j])
            &&& forall|j: int| 0 <= j < own.len()
                ==> #[trigger] l.contains(BlockRef { peripheral: p as usize, block: j as usize })
            &&& forall|k: int| 0 <= k < l.len() ==> (src.contains(#[trigger] l[k])
                && !redefined(own, block_at(ps, l[k]).name@))
                || (l[k].peripheral == p && l[k].block < own.len())
        }),
{
    let src = resolved_layout(ps, source_of(ps, p));
    let own = ps[p].blocks@;
    let inh = inherited(ps, src, own);
    let mine = own_refs(p, own.len());
    let l = resolved_layout(ps, p);
    lemma_resolved_derived(ps, p);
    assert(l == inh + mine);
    lemma_inherited_members(ps, src, own);
    assert forall|j: int| 0 <= j < src.len() && !redefined(own, block_at(ps, #[trigger] src[j]).name@) implies
        l.contains(src[j]) by {
        let w = choose|w: int| 0 <= w < inh.len() && inh[w] == src[j];
        assert(l[w] == inh[w]);
    }
    assert forall|j: int| 0 <= j < own.len() implies
        #[trigger] l.contains(BlockRef { peripheral: p as usize, block: j as usize }) by {
        assert(l[inh.len() + j] == mine[j]);
    }
    assert forall|k: int| 0 <= k < l.len() implies (src.contains(#[trigger] l[k])
        && !redefined(own, block_at(ps, l[k]).name@)) || (l[k].peripheral == p && l[k].block < own.len()) by {
        if k < inh.len() {
            assert(l[k] == inh[k]);
        } else {
            assert(l[k] == mine[k - inh.len()]);
        }
    }
}

} // verus!
