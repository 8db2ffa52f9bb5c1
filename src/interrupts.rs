//! The interrupt vector table and its linker-script form.

use vstd::prelude::*;
use vstd::string::StringExecFns;
use crate::model::Interrupt;

verus! {

/// One slot of the vector table.
#[derive(Clone, Debug)]
pub enum Vector {
    /// A slot with no interrupt; it still takes its place in the table.
    Reserved,
    /// A slot bound to the handler symbol of this name.
    Handler(String),
}

/// Two interrupts claim one vector index.
#[derive(Clone, Debug)]
pub struct TableError {
    pub index: u32,
    pub first: String,
    pub second: String,
}

/// No two interrupts share an index.
pub open spec fn indices_unique(ints: Seq<Interrupt>) -> bool {
    forall|i: int, j: int|
        0 <= i < j < ints.len() ==> #[trigger] ints[i].index != #[trigger] ints[j].index
}

/// One more than the largest index, or zero for no interrupts.
pub open spec fn table_len(ints: Seq<Interrupt>) -> nat
    decreases ints.len(),
{
    if ints.len() == 0 {
        0
    } else {
        let rest = table_len(ints.drop_last());
        let here = ints.last().index as nat + 1;
        if rest >= here { rest } else { here }
    }
}

/// Some interrupt has index `k`.
pub open spec fn declares(ints: Seq<Interrupt>, k: int) -> bool {
    exists|i: int| 0 <= i < ints.len() && #[trigger] ints[i].index == k
}

/// The slot at `k` holds the handler of the interrupt `ints[i]`.
pub open spec fn bound_to(t: Seq<Vector>, k: int, name: Seq<char>) -> bool {
    t[k] matches Vector::Handler(n) && n@ == name
}

/// `t` is the vector table of `ints`.
pub open spec fn is_table_of(t: Seq<Vector>, ints: Seq<Interrupt>) -> bool {
    &&& t.len() == table_len(ints)
    &&& forall|k: int| 0 <= k < t.len() ==> (#[trigger] t[k] is Reserved <==> !declares(ints, k))
    &&& forall|i: int| 0 <= i < ints.len() ==> bound_to(t, #[trigger] ints[i].index as int, ints[i].name@)
}

proof fn lemma_table_len_bounds(ints: Seq<Interrupt>)
    ensures
        forall|i: int| 0 <= i < ints.len() ==> (#[trigger] ints[i].index as nat) < table_len(ints),
        ints.len() > 0 ==> exists|i: int| 0 <= i < ints.len() && table_len(ints) == #[trigger] ints[i].index as nat + 1,
        ints.len() == 0 ==> table_len(ints) == 0,
    decreases ints.len(),
{
    if ints.len() > 0 {
        let rest = ints.drop_last();
        lemma_table_len_bounds(rest);
        assert forall|i: int| 0 <= i < ints.len() implies (#[trigger] ints[i].index as nat) < table_len(ints) by {
            if i < ints.len() - 1 {
                assert(rest[i] == ints[i]);
            }
        }
        if table_len(rest) >= ints.last().index as nat + 1 {
            let w = choose|i: int| 0 <= i < rest.len() && table_len(rest) == #[trigger] rest[i].index as nat + 1;
            assert(ints[w] == rest[w]);
        } else {
            assert(table_len(ints) == ints[ints.len() - 1].index as nat + 1);
        }
    }
}

/// Finds the first pair of interrupts, in declaration order, that share an index.
pub(crate) fn find_collision(ints: &Vec<Interrupt>) -> (r: Option<(usize, usize)>)
    ensures
        r is None <==> indices_unique(ints@),
        r matches Option::Some((i, j)) ==> i < j < ints@.len() && ints@[i as int].index == ints@[j as int].index,
{
    let n = ints.len();
    for j in 0..n
        invariant
            n == ints@.len(),
            forall|a: int, b: int| 0 <= a < b < j ==> #[trigger] ints@[a].index != #[trigger] ints@[b].index,
    {
        for i in 0..j
            invariant
                n == ints@.len(),
                j < n,
                forall|a: int, b: int| 0 <= a < b < j ==> #[trigger] ints@[a].index != #[trigger] ints@[b].index,
                forall|a: int| 0 <= a < i ==> #[trigger] ints@[a].index != ints@[j as int].index,
        {
            if ints[i].index == ints[j].index {
                return Option::Some((i, j));
            }
        }
    }
    Option::None
}

/// Builds the vector table: one slot per index from zero to the largest
/// declared index, reserved where no interrupt is declared.
pub fn vector_table(ints: &Vec<Interrupt>) -> (r: Result<Vec<Vector>, TableError>)
    ensures
        r is Ok <==> indices_unique(ints@),
        r matches Ok(t) ==> is_table_of(t@, ints@),
        r matches Err(e) ==> exists|i: int, j: int|
            0 <= i < j < ints@.len() && #[trigger] ints@[i].index == e.index
                && #[trigger] ints@[j].index == e.index && e.first@ == ints@[i].name@
                && e.second@ == ints@[j].name@,
{
    match find_collision(ints) {
        Option::Some((i, j)) => {
            return Err(TableError {
                index: ints[i].index,
                first: ints[i].name.clone(),
                second: ints[j].name.clone(),
            });
        },
        Option::None => {},
    }
    proof {
        lemma_table_len_bounds(ints@);
    }
    let n = ints.len();
    let mut len: u64 = 0;
    for i in 0..n
        invariant
            n == ints@.len(),
            len as nat == table_len(ints@.subrange(0, i as int)),
            len <= 0x1_0000_0000,
    {
        proof {
            assert(ints@.subrange(0, i + 1).drop_last() =~= ints@.subrange(0, i as int));
        }
        let here = ints[i].index as u64 + 1;
        if here > len {
            len = here;
        }
    }
    assert(ints@.subrange(0, n as int) =~= ints@);
    let mut t: Vec<Vector> = Vec::new();
    while (t.len() as u64) < len
        invariant
            t@.len() <= len,
            forall|k: int| 0 <= k < t@.len() ==> #[trigger] t@[k] is Reserved,
        decreases len - t@.len(),
    {
        t.push(Vector::Reserved);
    }
    for i in 0..n
        invariant
            n == ints@.len(),
            indices_unique(ints@),
            len as nat == table_len(ints@),
            forall|a: int| 0 <= a < ints@.len() ==> (#[trigger] ints@[a].index as nat) < table_len(ints@),
            t@.len() == len,
            forall|k: int| 0 <= k < t@.len() ==> (#[trigger] t@[k] is Reserved <==> !declares(ints@.subrange(0, i as int), k)),
            forall|a: int| 0 <= a < i ==> bound_to(t@, #[trigger] ints@[a].index as int, ints@[a].name@),
    {
        let k = ints[i].index as usize;
        let ghost before = t@;
        t.set(k, Vector::Handler(ints[i].name.clone()));
        proof {
            let done = ints@.subrange(0, i + 1);
            assert forall|q: int| 0 <= q < t@.len() implies (#[trigger] t@[q] is Reserved <==> !declares(done, q)) by {
                if q == k as int {
                    assert(done[i as int].index == q);
                } else {
                    if declares(done, q) {
                        let w = choose|w: int| 0 <= w < done.len() && #[trigger] done[w].index == q;
                        assert(ints@.subrange(0, i as int)[w].index == q);
                    }
                    if declares(ints@.subrange(0, i as int), q) {
                        let w = choose|w: int| 0 <= w < i && #[trigger] ints@.subrange(0, i as int)[w].index == q;
                        assert(done[w].index == q);
                    }
                }
            }
            assert forall|a: int| 0 <= a < i + 1 implies bound_to(t@, #[trigger] ints@[a].index as int, ints@[a].name@) by {
                if a < i {
                    assert(ints@[a].index != ints@[i as int].index);
                }
            }
        }
    }
    assert(ints@.subrange(0, n as int) =~= ints@);
    Ok(t)
}

/// The symbol declaration of a slot: a bound slot falls back to the
/// default handler when the application defines none.
pub open spec fn provide_line(v: Vector) -> Seq<char> {
    match v {
        Vector::Reserved => Seq::empty(),
        Vector::Handler(n) => "PROVIDE("@ + n@ + " = DefaultHandler);\n"@,
    }
}

/// The table entry of a slot.
pub open spec fn entry_line(v: Vector) -> Seq<char> {
    match v {
        Vector::Reserved => "    LONG(0); /* reserved */\n"@,
        Vector::Handler(n) => "    LONG("@ + n@ + ");\n"@,
    }
}

/// The symbol declarations of a table, in slot order.
pub open spec fn provide_lines(t: Seq<Vector>) -> Seq<char>
    decreases t.len(),
{
    if t.len() == 0 { Seq::empty() } else { provide_lines(t.drop_last()) + provide_line(t.last()) }
}

/// The entries of a table, in slot order.
pub open spec fn entry_lines(t: Seq<Vector>) -> Seq<char>
    decreases t.len(),
{
    if t.len() == 0 { Seq::empty() } else { entry_lines(t.drop_last()) + entry_line(t.last()) }
}

/// The linker script of a vector table: the handler declarations, then the
/// table section with one entry per slot, in slot order.
pub open spec fn linker_script_text(t: Seq<Vector>) -> Seq<char> {
    provide_lines(t) + "SECTIONS\n{\n  .vector_table.interrupts :\n  {\n"@ + entry_lines(t)
        + "  } > FLASH\n}\n"@
}

/// Writes the linker script of a vector table.
pub fn linker_script(t: &Vec<Vector>) -> (r: String)
    ensures
        r@ == linker_script_text(t@),
{
    let mut s = String::new();
    let n = t.len();
    for i in 0..n
        invariant
            n == t@.len(),
            s@ == provide_lines(t@.subrange(0, i as int)),
    {
        assert(t@.subrange(0, i + 1).drop_last() =~= t@.subrange(0, i as int));
        match &t[i] {
            Vector::Reserved => {},
            Vector::Handler(name) => {
                s.append("PROVIDE(");
                s.append(name.as_str());
                s.append(" = DefaultHandler);\n");
            },
        }
        assert(s@ =~= provide_lines(t@.subrange(0, i + 1)));
    }
    assert(t@.subrange(0, n as int) =~= t@);
    s.append("SECTIONS\n{\n  .vector_table.interrupts :\n  {\n");
    let ghost head = s@;
    for i in 0..n
        invariant
            n == t@.len(),
            s@ == head + entry_lines(t@.subrange(0, i as int)),
    {
        assert(t@.subrange(0, i + 1).drop_last() =~= t@.subrange(0, i as int));
        match &t[i] {
            Vector::Reserved => {
                s.append("    LONG(0); /* reserved */\n");
            },
            Vector::Handler(name) => {
                s.append("    LONG(");
                s.append(name.as_str());
                s.append(");\n");
            },
        }
        assert(s@ =~= head + entry_lines(t@.subrange(0, i + 1)));
    }
    s.append("  } > FLASH\n}\n");
    assert(s@ =~= linker_script_text(t@));
    s
}

/// Builds the linker script of an interrupt list, or reports two interrupts
/// that share an index.
pub fn interrupt_table_script(ints: &Vec<Interrupt>) -> (r: Result<String, TableError>)
    ensures
        r is Ok <==> indices_unique(ints@),
        r matches Ok(s) ==> exists|t: Seq<Vector>| is_table_of(t, ints@) && s@ == linker_script_text(t),
{
    match vector_table(ints) {
        Ok(t) => Ok(linker_script(&t)),
        Err(e) => Err(e),
    }
}

/// What a slot says: reserved, or the name of its handler.
pub open spec fn slot(v: Vector) -> Option<Seq<char>> {
    match v {
        Vector::Reserved => Option::None,
        Vector::Handler(n) => Option::Some(n@),
    }
}

proof fn lemma_lines_by_slots(t1: Seq<Vector>, t2: Seq<Vector>)
    requires
        t1.len() == t2.len(),
        forall|k: int| 0 <= k < t1.len() ==> slot(#[trigger] t1[k]) == slot(t2[k]),
    ensures
        provide_lines(t1) == provide_lines(t2),
        entry_lines(t1) == entry_lines(t2),
    decreases t1.len(),
{
    if t1.len() > 0 {
        let head1 = t1.drop_last();
        let head2 = t2.drop_last();
        assert forall|k: int| 0 <= k < head1.len() implies slot(#[trigger] head1[k]) == slot(head2[k]) by {
            assert(head1[k] == t1[k]);
            assert(head2[k] == t2[k]);
        }
        lemma_lines_by_slots(head1, head2);
        assert(slot(t1.last()) == slot(t2.last()));
        assert(provide_line(t1.last()) == provide_line(t2.last()));
        assert(entry_line(t1.last()) == entry_line(t2.last()));
    }
}

/// The vector table of an interrupt list, and so its linker script, is
/// determined by the list.
pub proof fn table_text_unique(t1: Seq<Vector>, t2: Seq<Vector>, ints: Seq<Interrupt>)
    requires
        is_table_of(t1, ints),
        is_table_of(t2, ints),
    ensures
        forall|k: int| 0 <= k < t1.len() ==> slot(#[trigger] t1[k]) == slot(t2[k]),
        linker_script_text(t1) == linker_script_text(t2),
{
    assert forall|k: int| 0 <= k < t1.len() implies slot(#[trigger] t1[k]) == slot(t2[k]) by {
        if declares(ints, k) {
            let i = choose|i: int| 0 <= i < ints.len() && #[trigger] ints[i].index == k;
            assert(bound_to(t1, ints[i].index as int, ints[i].name@));
            assert(bound_to(t2, ints[i].index as int, ints[i].name@));
        } else {
            assert(t1[k] is Reserved);
            assert(t2[k] is Reserved);
        }
    }
    lemma_lines_by_slots(t1, t2);
}

/// The table spans every declared index: each index lies below its length,
/// and, for a non-empty list, the largest index is the last slot.
pub proof fn table_spans_indices(ints: Seq<Interrupt>)
    ensures
        forall|i: int| 0 <= i < ints.len() ==> (#[trigger] ints[i].index as nat) < table_len(ints),
        ints.len() > 0 ==> exists|i: int| 0 <= i < ints.len() && table_len(ints) == #[trigger] ints[i].index as nat + 1,
        ints.len() == 0 ==> table_len(ints) == 0,
{
    lemma_table_len_bounds(ints);
}

} // verus!
