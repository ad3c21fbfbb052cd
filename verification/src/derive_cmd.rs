//! The plan behind the command derive: which command structs it rejects,
//! whether a command expects a prompt, and in which order its fields are
//! serialized.
use vstd::prelude::*;

verus! {

/// A field of a command struct, as the derive sees its attributes.
#[derive(Clone, Copy, Debug, PartialEq, Eq, Structural)]
pub struct CmdField {
    /// The position that `#[at_arg(position = ..)]` gives the field, if any.
    pub arg_position: Option<usize>,
    /// The position that `#[at_data(position = ..)]` gives the field; `Some`
    /// exactly when the field is a data field.
    pub data_position: Option<usize>,
}

/// One step of the generated serializer, naming a field by its index.
#[derive(Clone, Copy, Debug, PartialEq, Eq, Structural)]
pub enum Serialized {
    /// Serialize the field's value.
    Field(usize),
    /// Serialize the length of the data field's bytes.
    DataLength(usize),
}

/// Why the derive rejects a command struct.
#[derive(Clone, Copy, Debug, PartialEq, Eq, Structural)]
pub enum CmdDeriveError {
    /// More than one field carries `#[at_data]`.
    MultipleDataFields,
    /// The command expects a prompt but `response_code = false` was given.
    PromptWithoutResponseCode,
}

/// What the derive generates for an accepted command struct.
pub struct CmdPlan {
    /// Whether `EXPECTS_PROMPT = true` is generated.
    pub expects_prompt: bool,
    /// The field count announced to the serializer.
    pub n_fields: usize,
    /// The serializer's steps, in order.
    pub order: Vec<Serialized>,
    /// The data field, whose bytes `payload()` returns.
    pub payload_field: Option<usize>,
}

pub open spec fn is_data(f: CmdField) -> bool {
    f.data_position is Some
}

/// Some field is a data field.
pub open spec fn has_data(fields: Seq<CmdField>) -> bool {
    exists|i: int| 0 <= i < fields.len() && is_data(#[trigger] fields[i])
}

/// Two fields are data fields.
pub open spec fn has_two_data(fields: Seq<CmdField>) -> bool {
    exists|i: int, j: int|
        0 <= i < j < fields.len() && is_data(#[trigger] fields[i]) && is_data(#[trigger] fields[j])
}

/// The serialization key of a plain field: its argument position, or the
/// largest position when it has none.
pub open spec fn field_key(f: CmdField) -> usize {
    match f.arg_position {
        Some(p) => p,
        None => usize::MAX,
    }
}

/// The key by which a serializer step is ordered.
pub open spec fn emit_key(fields: Seq<CmdField>, e: Serialized) -> int {
    match e {
        Serialized::Field(i) => field_key(fields[i as int]) as int,
        Serialized::DataLength(i) => fields[i as int].data_position.unwrap() as int,
    }
}

/// Among steps with the same key, the order in which they were listed:
/// plain fields in field order, the data field last.
pub open spec fn emit_rank(fields: Seq<CmdField>, e: Serialized) -> int {
    match e {
        Serialized::Field(i) => i as int,
        Serialized::DataLength(_) => fields.len() as int,
    }
}

/// Step `a` comes before step `b`: by key, and by listing order among equal keys.
pub open spec fn emits_before(fields: Seq<CmdField>, a: Serialized, b: Serialized) -> bool {
    emit_key(fields, a) < emit_key(fields, b)
        || (emit_key(fields, a) == emit_key(fields, b) && emit_rank(fields, a) < emit_rank(fields, b))
}

/// Whether the derive generates `EXPECTS_PROMPT = true`: when asked to, or
/// when there is a data field.
pub open spec fn effective_prompt(fields: Seq<CmdField>, expects_prompt: bool) -> bool {
    expects_prompt || has_data(fields)
}

/// The plan meets what the derive promises for `fields`.
pub open spec fn plan_fits(fields: Seq<CmdField>, expects_prompt: bool, plan: CmdPlan) -> bool {
    let order = plan.order@;
    &&& plan.expects_prompt == effective_prompt(fields, expects_prompt)
    &&& plan.n_fields == fields.len()
    &&& plan.n_fields == order.len()
    &&& match plan.payload_field {
        Some(d) => 0 <= d < fields.len() && is_data(fields[d as int]),
        None => !has_data(fields),
    }
    &&& forall|k: int| 0 <= k < order.len() ==> match #[trigger] order[k] {
        Serialized::Field(i) => 0 <= i < fields.len() && !is_data(fields[i as int]),
        Serialized::DataLength(i) => plan.payload_field == Some(i),
    }
    &&& forall|i: int| 0 <= i < fields.len() && !is_data(#[trigger] fields[i])
        ==> exists|k: int| 0 <= k < order.len() && order[k] == Serialized::Field(i as usize)
    &&& forall|d: usize| plan.payload_field == Some(d)
        ==> exists|k: int| 0 <= k < order.len() && order[k] == Serialized::DataLength(d)
    &&& forall|a: int, b: int| 0 <= a < b < order.len()
        ==> emits_before(fields, #[trigger] order[a], #[trigger] order[b])
}

/// The position the user wrote for what a serializer step emits: the
/// `#[at_arg]` position of a plain field (the largest position when none was
/// written), the `#[at_data]` position for the data field's length.
pub open spec fn written_position(fields: Seq<CmdField>, e: Serialized) -> int {
    match e {
        Serialized::Field(i) => match fields[i as int].arg_position {
            Some(p) => p as int,
            None => usize::MAX as int,
        },
        Serialized::DataLength(i) => match fields[i as int].data_position {
            Some(p) => p as int,
            None => usize::MAX as int,
        },
    }
}

spec fn lex_lt(a: (usize, usize), b: (usize, usize)) -> bool {
    a.0 < b.0 || (a.0 == b.0 && a.1 < b.1)
}

spec fn strictly_sorted(s: Seq<(usize, usize)>) -> bool {
    forall|a: int, b: int| 0 <= a < b < s.len() ==> lex_lt(#[trigger] s[a], #[trigger] s[b])
}

/// Inserts `item`, whose rank is above every rank in `list`, after every
/// entry whose key is not above its own: the place a stable sort by key gives it.
fn insert_by_key(list: &mut Vec<(usize, usize)>, item: (usize, usize))
    requires
        strictly_sorted(old(list)@),
        forall|k: int| 0 <= k < old(list)@.len() ==> (#[trigger] old(list)@[k]).1 < item.1,
    ensures
        strictly_sorted(final(list)@),
        exists|p: int| 0 <= p <= old(list)@.len() && final(list)@ == old(list)@.insert(p, item),
{
    let ghost before = list@;
    let mut p: usize = 0;
    while p < list.len() && list[p].0 <= item.0
        invariant
            list@ == before,
            p <= list@.len(),
            forall|q: int| 0 <= q < p ==> (#[trigger] list@[q]).0 <= item.0,
        decreases list@.len() - p,
    {
        p = p + 1;
    }
    assert(forall|q: int| p <= q < before.len() ==> (#[trigger] before[q]).0 > item.0) by {
        assert forall|q: int| p <= q < before.len() implies (#[trigger] before[q]).0 > item.0 by {
            if q > p {
                assert(lex_lt(before[p as int], before[q]));
            }
        }
    }
    list.insert(p, item);
    proof {
        before.insert_ensures(p as int, item);
        let after = list@;
        assert forall|a: int, b: int| 0 <= a < b < after.len() implies lex_lt(
            #[trigger] after[a],
            #[trigger] after[b],
        ) by {
            if b < p {
                assert(lex_lt(before[a], before[b]));
            } else if b == p {
                assert(before[a].0 <= item.0 && before[a].1 < item.1);
            } else if a < p {
                assert(after[b] == before[b - 1]);
                assert(lex_lt(before[a], before[b - 1]));
            } else if a == p {
                assert(after[b] == before[b - 1]);
            } else {
                assert(after[a] == before[a - 1]);
                assert(after[b] == before[b - 1]);
                assert(lex_lt(before[a - 1], before[b - 1]));
            }
        }
    }
}

/// The serialization key of a plain field.
fn key_of(f: &CmdField) -> (k: usize)
    ensures
        k == field_key(*f),
        f.arg_position matches Some(p) ==> k == p,
        f.arg_position is None ==> k == usize::MAX,
{
    match f.arg_position {
        Some(p) => p,
        None => usize::MAX,
    }
}

/// Plans the command derive for a struct with `fields`, given whether
/// `expects_prompt` was asked for and the `response_code` attribute. Two data
/// fields, or a prompt without a response code, are rejected; otherwise the
/// plan serializes every field once, in the order of a stable sort by
/// position, the data field by its length.
pub fn plan_cmd(fields: &Vec<CmdField>, expects_prompt: bool, response_code: Option<bool>) -> (r: Result<
    CmdPlan,
    CmdDeriveError,
>)
    ensures
        (r == Err::<CmdPlan, CmdDeriveError>(CmdDeriveError::MultipleDataFields)) <==> has_two_data(
            fields@,
        ),
        (r == Err::<CmdPlan, CmdDeriveError>(CmdDeriveError::PromptWithoutResponseCode)) <==> (
        !has_two_data(fields@) && effective_prompt(fields@, expects_prompt) && response_code == Some(
            false,
        )),
        r is Ok <==> !has_two_data(fields@) && !(effective_prompt(fields@, expects_prompt)
            && response_code == Some(false)),
        r matches Ok(plan) ==> plan_fits(fields@, expects_prompt, plan),
        r matches Ok(plan) ==> forall|a: int, b: int| 0 <= a < b < plan.order@.len()
            ==> written_position(fields@, #[trigger] plan.order@[a]) <= written_position(
            fields@,
            #[trigger] plan.order@[b],
        ),
{
    let n = fields.len();
    let mut first: Option<usize> = None;
    let mut two = false;
    let mut i: usize = 0;
    while i < n
        invariant
            n == fields@.len(),
            i <= n,
            first matches None ==> forall|j: int| 0 <= j < i ==> !is_data(#[trigger] fields@[j]),
            first matches Some(d) ==> d < i && is_data(fields@[d as int]) && forall|j: int|
                0 <= j < d ==> !is_data(#[trigger] fields@[j]),
            two <==> exists|j1: int, j2: int|
                0 <= j1 < j2 < i && is_data(#[trigger] fields@[j1]) && is_data(#[trigger] fields@[j2]),
        decreases n - i,
    {
        if fields[i].data_position.is_some() {
            match first {
                None => {
                    first = Some(i);
                    assert forall|j1: int, j2: int|
                        0 <= j1 < j2 < i + 1 && is_data(#[trigger] fields@[j1]) implies !is_data(
                        #[trigger] fields@[j2],
                    ) by {}
                },
                Some(d) => {
                    assert(is_data(fields@[d as int]) && is_data(fields@[i as int]));
                    two = true;
                },
            }
        }
        i = i + 1;
    }
    if two {
        return Err(CmdDeriveError::MultipleDataFields);
    }
    assert(first is Some <==> has_data(fields@));
    let prompt = expects_prompt || first.is_some();
    if prompt {
        if let Some(false) = response_code {
            return Err(CmdDeriveError::PromptWithoutResponseCode);
        }
    }
    // Every data field is `first`.
    assert(forall|j: int| 0 <= j < n && is_data(#[trigger] fields@[j]) ==> first == Some(j as usize)) by {
        assert forall|j: int| 0 <= j < n && is_data(#[trigger] fields@[j]) implies first == Some(
            j as usize,
        ) by {
            let d = first.unwrap();
            if (j as usize) != d {
                if j < d {
                } else {
                    assert(is_data(fields@[d as int]));
                }
            }
        }
    }
    let mut list: Vec<(usize, usize)> = Vec::new();
    let mut i: usize = 0;
    while i < n
        invariant
            n == fields@.len(),
            i <= n,
            !two,
            !(exists|j1: int, j2: int|
                0 <= j1 < j2 < n && is_data(#[trigger] fields@[j1]) && is_data(#[trigger] fields@[j2])),
            forall|j: int| 0 <= j < n && is_data(#[trigger] fields@[j]) ==> first == Some(j as usize),
            first matches Some(d) ==> d < n && is_data(fields@[d as int]),
            strictly_sorted(list@),
            forall|k: int| 0 <= k < list@.len() ==> {
                let e = #[trigger] list@[k];
                &&& e.1 < i
                &&& !is_data(fields@[e.1 as int])
                &&& e.0 == field_key(fields@[e.1 as int])
            },
            forall|j: int| 0 <= j < i && !is_data(#[trigger] fields@[j]) ==> exists|k: int|
                0 <= k < list@.len() && list@[k] == (field_key(fields@[j]), j as usize),
            list@.len() + (if first matches Some(d) && d < i { 1int } else { 0int }) == i,
        decreases n - i,
    {
        if fields[i].data_position.is_none() {
            let item = (key_of(&fields[i]), i);
            let ghost before = list@;
            insert_by_key(&mut list, item);
            proof {
                let p = choose|p: int| 0 <= p <= before.len() && list@ == before.insert(p, item);
                before.insert_ensures(p, item);
                assert forall|k: int| 0 <= k < list@.len() implies {
                    let e = #[trigger] list@[k];
                    &&& e.1 < i + 1
                    &&& !is_data(fields@[e.1 as int])
                    &&& e.0 == field_key(fields@[e.1 as int])
                } by {
                    if k < p {
                        assert(list@[k] == before[k]);
                    } else if k > p {
                        assert(list@[k] == before[k - 1]);
                    }
                }
                assert forall|j: int| 0 <= j < i + 1 && !is_data(#[trigger] fields@[j]) implies exists|k: int|
                    0 <= k < list@.len() && list@[k] == (field_key(fields@[j]), j as usize) by {
                    if j == i {
                        assert(list@[p] == item);
                    } else {
                        let k0 = choose|k: int|
                            0 <= k < before.len() && before[k] == (field_key(fields@[j]), j as usize);
                        if k0 < p {
                            assert(list@[k0] == before[k0]);
                        } else {
                            assert(list@[k0 + 1] == before[k0]);
                        }
                    }
                }
            }
        } else {
            assert(is_data(fields@[i as int]));
        }
        i = i + 1;
    }
    if let Some(d) = first {
        let item = (fields[d].data_position.unwrap(), n);
        let ghost before = list@;
        insert_by_key(&mut list, item);
        proof {
            let p = choose|p: int| 0 <= p <= before.len() && list@ == before.insert(p, item);
            before.insert_ensures(p, item);
            assert forall|j: int| 0 <= j < n && !is_data(#[trigger] fields@[j]) implies exists|k: int|
                0 <= k < list@.len() && list@[k] == (field_key(fields@[j]), j as usize) by {
                let k0 = choose|k: int|
                    0 <= k < before.len() && before[k] == (field_key(fields@[j]), j as usize);
                if k0 < p {
                    assert(list@[k0] == before[k0]);
                } else {
                    assert(list@[k0 + 1] == before[k0]);
                }
            }
            assert forall|k: int| 0 <= k < list@.len() implies {
                let e = #[trigger] list@[k];
                ||| (e.1 < n && !is_data(fields@[e.1 as int]) && e.0 == field_key(fields@[e.1 as int]))
                ||| (e.1 == n && e.0 == fields@[d as int].data_position.unwrap())
            } by {
                if k < p {
                    assert(list@[k] == before[k]);
                } else if k > p {
                    assert(list@[k] == before[k - 1]);
                }
            }
            assert(list@[p] == item);
        }
    }
    assert(list@.len() == n);
    assert(forall|q: int| 0 <= q < n && (#[trigger] list@[q]).1 == n ==> first is Some);
    let mut order: Vec<Serialized> = Vec::new();
    let mut k: usize = 0;
    while k < n
        invariant
            n == fields@.len(),
            list@.len() == n,
            k <= n,
            order@.len() == k,
            forall|q: int| 0 <= q < n && (#[trigger] list@[q]).1 == n ==> first is Some,
            forall|q: int| 0 <= q < k ==> #[trigger] order@[q] == (if list@[q].1 == n {
                Serialized::DataLength(first.unwrap())
            } else {
                Serialized::Field(list@[q].1)
            }),
        decreases n - k,
    {
        let (_, rank) = list[k];
        if rank == n {
            order.push(Serialized::DataLength(first.unwrap()));
        } else {
            order.push(Serialized::Field(rank));
        }
        k = k + 1;
    }
    let plan = CmdPlan { expects_prompt: prompt, n_fields: n, order, payload_field: first };
    proof {
        let f = fields@;
        let o = plan.order@;
        // Every step names what the list entry at its place names.
        assert forall|q: int| 0 <= q < n implies emit_key(f, #[trigger] o[q]) == list@[q].0
            && emit_rank(f, o[q]) == list@[q].1 && match o[q] {
            Serialized::Field(i) => 0 <= i < f.len() && !is_data(f[i as int]),
            Serialized::DataLength(i) => plan.payload_field == Some(i),
        } by {
            let e = list@[q];
            if let Some(d) = first {
                assert(e.1 < n && !is_data(f[e.1 as int]) && e.0 == field_key(f[e.1 as int]) || (e.1 == n
                    && e.0 == f[d as int].data_position.unwrap()));
            } else {
                assert(e.1 < n && !is_data(f[e.1 as int]) && e.0 == field_key(f[e.1 as int]));
            }
        }
        assert forall|a: int, b: int| 0 <= a < b < o.len() implies emits_before(
            f,
            #[trigger] o[a],
            #[trigger] o[b],
        ) by {
            assert(lex_lt(list@[a], list@[b]));
            assert(emit_key(f, o[a]) == list@[a].0 && emit_rank(f, o[a]) == list@[a].1);
            assert(emit_key(f, o[b]) == list@[b].0 && emit_rank(f, o[b]) == list@[b].1);
        }
        assert forall|j: int| 0 <= j < f.len() && !is_data(#[trigger] f[j]) implies exists|q: int|
            0 <= q < o.len() && o[q] == Serialized::Field(j as usize) by {
            let q = choose|q: int| 0 <= q < list@.len() && list@[q] == (field_key(f[j]), j as usize);
            assert(o[q] == Serialized::Field(j as usize));
        }
        assert forall|d: usize| plan.payload_field == Some(d) implies exists|q: int|
            0 <= q < o.len() && o[q] == Serialized::DataLength(d) by {
            let q = choose|q: int| 0 <= q < list@.len() && list@[q].1 == n;
            assert(o[q] == Serialized::DataLength(d));
        }
        assert(plan.payload_field matches None ==> !has_data(f));
    }
    proof {
        lemma_plan_follows_positions(fields@, expects_prompt, plan);
    }
    Ok(plan)
}

/// A plain field is keyed by exactly the `#[at_arg]` position written on it,
/// and a field without one by the largest position, so that it comes after
/// every positioned field.
pub proof fn lemma_field_key_is_position(f: CmdField)
    ensures
        f.arg_position matches Some(p) ==> field_key(f) == p,
        f.arg_position is None ==> field_key(f) == usize::MAX,
{
}

/// In a plan the derive accepts, the serializer emits its steps in order of
/// the positions the user wrote: no step comes after one with a larger
/// position, and among equal positions plain fields keep their order in the
/// struct and come before the data field's length.
pub proof fn lemma_plan_follows_positions(fields: Seq<CmdField>, expects_prompt: bool, plan: CmdPlan)
    requires
        plan_fits(fields, expects_prompt, plan),
    ensures
        forall|a: int, b: int| 0 <= a < b < plan.order@.len()
            ==> written_position(fields, #[trigger] plan.order@[a]) <= written_position(
            fields,
            #[trigger] plan.order@[b],
        ),
        forall|a: int, b: int|
            0 <= a < b < plan.order@.len() && written_position(fields, #[trigger] plan.order@[a])
                == written_position(fields, #[trigger] plan.order@[b]) ==> match (plan.order@[a], plan.order@[b]) {
                (Serialized::Field(i), Serialized::Field(j)) => i < j,
                (Serialized::DataLength(_), _) => false,
                _ => true,
            },
{
    let o = plan.order@;
    assert forall|e: Serialized| #![trigger written_position(fields, e)]
        (exists|k: int| 0 <= k < o.len() && o[k] == e) implies emit_key(fields, e) == written_position(fields, e)
        && emit_rank(fields, e) == (match e {
            Serialized::Field(i) => i as int,
            Serialized::DataLength(_) => fields.len() as int,
        }) && (e matches Serialized::Field(i) ==> i < fields.len()) by {
        let k = choose|k: int| 0 <= k < o.len() && o[k] == e;
        assert(match o[k] {
            Serialized::Field(i) => 0 <= i < fields.len() && !is_data(fields[i as int]),
            Serialized::DataLength(i) => plan.payload_field == Some(i),
        });
        if let Serialized::DataLength(i) = e {
            assert(is_data(fields[i as int]));
        }
    }
    assert forall|a: int, b: int| 0 <= a < b < o.len() implies written_position(fields, #[trigger] o[a])
        <= written_position(fields, #[trigger] o[b]) && (written_position(fields, o[a]) == written_position(
        fields,
        o[b],
    ) ==> match (o[a], o[b]) {
        (Serialized::Field(i), Serialized::Field(j)) => i < j,
        (Serialized::DataLength(_), _) => false,
        _ => true,
    }) by {
        assert(emits_before(fields, o[a], o[b]));
        assert(exists|k: int| 0 <= k < o.len() && o[k] == o[a]);
        assert(exists|k: int| 0 <= k < o.len() && o[k] == o[b]);
    }
}

} // verus!
