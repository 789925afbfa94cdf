use vstd::prelude::*;

use crate::error::MergeError;

verus! {

/// One field of a schema: its name, its type (in textual form), and whether
/// it may hold nulls. Fields are identified by name.
#[derive(Debug)]
pub struct FieldDef {
    pub name: String,
    pub data_type: String,
    pub nullable: bool,
}

/// A field as a value: (name, type, nullable).
pub type FieldView = (Seq<char>, Seq<char>, bool);

pub open spec fn field_view(f: FieldDef) -> FieldView {
    (f.name@, f.data_type@, f.nullable)
}

pub open spec fn schema_view(s: &Vec<FieldDef>) -> Seq<FieldView> {
    Seq::new(s@.len(), |i: int| field_view(s@[i]))
}

pub open spec fn schemas_view(ss: &Vec<Vec<FieldDef>>) -> Seq<Seq<FieldView>> {
    Seq::new(ss@.len(), |k: int| schema_view(&ss@[k]))
}

/// Some field of `fields` is called `name`.
pub open spec fn has_name(fields: Seq<FieldView>, name: Seq<char>) -> bool {
    exists|i: int| 0 <= i < fields.len() && (#[trigger] fields[i]).0 == name
}

/// No two fields of `fields` share a name.
pub open spec fn distinct_names(fields: Seq<FieldView>) -> bool {
    forall|i: int, j: int|
        0 <= i < j < fields.len() ==> (#[trigger] fields[i]).0 != (#[trigger] fields[j]).0
}

/// Adds field `f` to the merged fields `acc`: a new name goes at the end; a
/// known name must come with the same type, and then the field is nullable
/// if either declaration is; another type is a conflict (`None`).
pub open spec fn add_field(acc: Seq<FieldView>, f: FieldView) -> Option<Seq<FieldView>> {
    if has_name(acc, f.0) {
        let i = choose|i: int| 0 <= i < acc.len() && (#[trigger] acc[i]).0 == f.0;
        if acc[i].1 == f.1 {
            Some(acc.update(i, (acc[i].0, acc[i].1, acc[i].2 || f.2)))
        } else {
            None
        }
    } else {
        Some(acc.push(f))
    }
}

/// Adds the fields of one schema, in order, to `acc`.
pub open spec fn merge_fields(acc: Option<Seq<FieldView>>, s: Seq<FieldView>) -> Option<
    Seq<FieldView>,
>
    decreases s.len(),
{
    if s.len() == 0 {
        acc
    } else {
        match merge_fields(acc, s.drop_last()) {
            Some(a) => add_field(a, s.last()),
            None => None,
        }
    }
}

/// The fields of all schemas, merged in input order, starting from none.
pub open spec fn merge_schemas(ss: Seq<Seq<FieldView>>) -> Option<Seq<FieldView>>
    decreases ss.len(),
{
    if ss.len() == 0 {
        Some(Seq::empty())
    } else {
        merge_fields(merge_schemas(ss.drop_last()), ss.last())
    }
}

/// Every schema has a field called `name`.
pub open spec fn in_every(ss: Seq<Seq<FieldView>>, name: Seq<char>) -> bool {
    forall|k: int| 0 <= k < ss.len() ==> has_name(#[trigger] ss[k], name)
}

/// The unified schema of `ss`: the merged fields, where a field that some
/// schema lacks is nullable. `None` when two schemas conflict.
pub open spec fn unified(ss: Seq<Seq<FieldView>>) -> Option<Seq<FieldView>> {
    match merge_schemas(ss) {
        None => None,
        Some(u) => Some(
            Seq::new(u.len(), |i: int| (u[i].0, u[i].1, u[i].2 || !in_every(ss, u[i].0))),
        ),
    }
}

/// The position of the first field of `fields` called `name`, if any.
pub fn find_field(fields: &Vec<FieldDef>, name: &String) -> (r: Option<usize>)
    ensures
        match r {
            None => !has_name(schema_view(fields), name@),
            Some(i) => {
                &&& i < fields@.len()
                &&& fields@[i as int].name@ == name@
                &&& forall|k: int| 0 <= k < i ==> (#[trigger] fields@[k]).name@ != name@
            },
        },
{
    let mut i: usize = 0;
    while i < fields.len()
        invariant
            i <= fields@.len(),
            forall|k: int| 0 <= k < i ==> (#[trigger] fields@[k]).name@ != name@,
        decreases fields@.len() - i,
    {
        if fields[i].name == *name {
            return Some(i);
        }
        i = i + 1;
    }
    assert(!has_name(schema_view(fields), name@)) by {
        if has_name(schema_view(fields), name@) {
            let j = choose|j: int|
                0 <= j < schema_view(fields).len() && (#[trigger] schema_view(fields)[j]).0
                    == name@;
            assert(fields@[j].name@ == name@);
        }
    }
    None
}

proof fn lemma_add_field_distinct(acc: Seq<FieldView>, f: FieldView)
    requires
        distinct_names(acc),
        add_field(acc, f) is Some,
    ensures
        distinct_names(add_field(acc, f)->0),
        forall|n: Seq<char>|
            has_name(add_field(acc, f)->0, n) <==> (has_name(acc, n) || n == f.0),
{
    let b = add_field(acc, f)->0;
    if has_name(acc, f.0) {
        let i = choose|i: int| 0 <= i < acc.len() && (#[trigger] acc[i]).0 == f.0;
        assert forall|n: Seq<char>| has_name(b, n) <==> (has_name(acc, n) || n == f.0) by {
            if has_name(acc, n) {
                let j = choose|j: int| 0 <= j < acc.len() && (#[trigger] acc[j]).0 == n;
                assert(b[j].0 == n);
            }
            if has_name(b, n) {
                let j = choose|j: int| 0 <= j < b.len() && (#[trigger] b[j]).0 == n;
                assert(acc[j].0 == n);
            }
            if n == f.0 {
                assert(b[i].0 == n);
            }
        }
    } else {
        assert forall|n: Seq<char>| has_name(b, n) <==> (has_name(acc, n) || n == f.0) by {
            if has_name(acc, n) {
                let j = choose|j: int| 0 <= j < acc.len() && (#[trigger] acc[j]).0 == n;
                assert(b[j].0 == n);
            }
            if has_name(b, n) {
                let j = choose|j: int| 0 <= j < b.len() && (#[trigger] b[j]).0 == n;
                if j < acc.len() {
                    assert(acc[j].0 == n);
                }
            }
            if n == f.0 {
                assert(b[acc.len() as int].0 == n);
            }
        }
        assert forall|i: int, j: int| 0 <= i < j < b.len() implies (#[trigger] b[i]).0 != (
        #[trigger] b[j]).0 by {
            if j == acc.len() {
                assert(acc[i].0 == b[i].0);
            }
        }
    }
}

proof fn lemma_merge_fields_none(s: Seq<FieldView>)
    ensures
        merge_fields(None, s) is None,
    decreases s.len(),
{
    if s.len() > 0 {
        lemma_merge_fields_none(s.drop_last());
    }
}

proof fn lemma_merge_fields_prefix_none(a: Option<Seq<FieldView>>, s: Seq<FieldView>, j: int)
    requires
        0 <= j <= s.len(),
        merge_fields(a, s.take(j)) is None,
    ensures
        merge_fields(a, s) is None,
    decreases s.len() - j,
{
    if j == s.len() {
        assert(s.take(j) =~= s);
    } else {
        assert(s.take(j + 1).drop_last() =~= s.take(j));
        lemma_merge_fields_prefix_none(a, s, j + 1);
    }
}

proof fn lemma_merge_schemas_prefix_none(ss: Seq<Seq<FieldView>>, k: int)
    requires
        0 <= k <= ss.len(),
        merge_schemas(ss.take(k)) is None,
    ensures
        merge_schemas(ss) is None,
    decreases ss.len() - k,
{
    if k == ss.len() {
        assert(ss.take(k) =~= ss);
    } else {
        assert(ss.take(k + 1).drop_last() =~= ss.take(k));
        lemma_merge_fields_none(ss[k]);
        lemma_merge_schemas_prefix_none(ss, k + 1);
    }
}

proof fn lemma_merge_fields_names(a: Seq<FieldView>, s: Seq<FieldView>)
    requires
        distinct_names(a),
        merge_fields(Some(a), s) is Some,
    ensures
        distinct_names(merge_fields(Some(a), s)->0),
        forall|n: Seq<char>|
            has_name(merge_fields(Some(a), s)->0, n) <==> (has_name(a, n) || has_name(s, n)),
    decreases s.len(),
{
    if s.len() > 0 {
        let p = s.drop_last();
        lemma_merge_fields_names(a, p);
        let b = merge_fields(Some(a), p)->0;
        lemma_add_field_distinct(b, s.last());
        assert forall|n: Seq<char>| has_name(s, n) <==> (has_name(p, n) || n == s.last().0) by {
            if has_name(s, n) {
                let j = choose|j: int| 0 <= j < s.len() && (#[trigger] s[j]).0 == n;
                if j < p.len() {
                    assert(p[j].0 == n);
                }
            }
            if has_name(p, n) {
                let j = choose|j: int| 0 <= j < p.len() && (#[trigger] p[j]).0 == n;
                assert(s[j].0 == n);
            }
        }
    }
}

proof fn lemma_merge_schemas_names(ss: Seq<Seq<FieldView>>)
    requires
        merge_schemas(ss) is Some,
    ensures
        distinct_names(merge_schemas(ss)->0),
        forall|n: Seq<char>|
            has_name(merge_schemas(ss)->0, n) <==> exists|k: int|
                0 <= k < ss.len() && has_name(#[trigger] ss[k], n),
    decreases ss.len(),
{
    if ss.len() > 0 {
        let p = ss.drop_last();
        if merge_schemas(p) is None {
            lemma_merge_fields_none(ss.last());
        }
        lemma_merge_schemas_names(p);
        lemma_merge_fields_names(merge_schemas(p)->0, ss.last());
        assert forall|n: Seq<char>|
            has_name(merge_schemas(ss)->0, n) <==> exists|k: int|
                0 <= k < ss.len() && has_name(#[trigger] ss[k], n) by {
            if has_name(merge_schemas(p)->0, n) {
                let k = choose|k: int| 0 <= k < p.len() && has_name(#[trigger] p[k], n);
                assert(has_name(ss[k], n));
            }
            if exists|k: int| 0 <= k < ss.len() && has_name(#[trigger] ss[k], n) {
                let k = choose|k: int| 0 <= k < ss.len() && has_name(#[trigger] ss[k], n);
                if k < p.len() {
                    assert(has_name(p[k], n));
                }
            }
        }
    } else {
        assert(merge_schemas(ss)->0 =~= Seq::<FieldView>::empty());
    }
}

/// Each field name of each input schema occurs in the unified schema, and
/// exactly once; the unified schema names no other field.
pub proof fn lemma_unified_fields(ss: Seq<Seq<FieldView>>)
    requires
        unified(ss) is Some,
    ensures
        distinct_names(unified(ss)->0),
        forall|k: int, j: int|
            0 <= k < ss.len() && 0 <= j < ss[k].len() ==> has_name(
                unified(ss)->0,
                (#[trigger] ss[k][j]).0,
            ),
        forall|n: Seq<char>|
            has_name(unified(ss)->0, n) ==> exists|k: int|
                0 <= k < ss.len() && has_name(#[trigger] ss[k], n),
{
    lemma_merge_schemas_names(ss);
    let m = merge_schemas(ss)->0;
    let u = unified(ss)->0;
    assert forall|n: Seq<char>| has_name(u, n) <==> has_name(m, n) by {
        if has_name(u, n) {
            let i = choose|i: int| 0 <= i < u.len() && (#[trigger] u[i]).0 == n;
            assert(m[i].0 == n);
        }
        if has_name(m, n) {
            let i = choose|i: int| 0 <= i < m.len() && (#[trigger] m[i]).0 == n;
            assert(u[i].0 == n);
        }
    }
    assert forall|i: int, j: int| 0 <= i < j < u.len() implies (#[trigger] u[i]).0 != (
    #[trigger] u[j]).0 by {
        assert(m[i].0 != m[j].0);
    }
    assert forall|k: int, j: int| 0 <= k < ss.len() && 0 <= j < ss[k].len() implies has_name(
        u,
        (#[trigger] ss[k][j]).0,
    ) by {
        assert(has_name(ss[k], ss[k][j].0));
    }
}

/// Whether every schema of `schemas` has a field called `name`.
fn present_in_every(schemas: &Vec<Vec<FieldDef>>, name: &String) -> (r: bool)
    ensures
        r == in_every(schemas_view(schemas), name@),
{
    let ghost ssv = schemas_view(schemas);
    let mut k: usize = 0;
    while k < schemas.len()
        invariant
            k <= schemas@.len(),
            ssv == schemas_view(schemas),
            forall|m: int| 0 <= m < k ==> has_name(#[trigger] ssv[m], name@),
        decreases schemas@.len() - k,
    {
        match find_field(&schemas[k], name) {
            None => {
                assert(!has_name(ssv[k as int], name@));
                return false;
            },
            Some(i) => {
                assert(ssv[k as int][i as int].0 == name@);
            },
        }
        k = k + 1;
    }
    true
}

/// Reconciles the schemas of all streams into one unified schema: every
/// field name that occurs in some schema, once, in order of first appearance;
/// nullable where a declaration is nullable or a schema lacks the field.
/// Fails with `SchemaConflict` when one name comes with two types.
pub fn unify_schemas(schemas: &Vec<Vec<FieldDef>>) -> (r: Result<Vec<FieldDef>, MergeError>)
    ensures
        match r {
            Ok(u) => unified(schemas_view(schemas)) == Some(schema_view(&u)),
            Err(e) => unified(schemas_view(schemas)) is None && e == MergeError::SchemaConflict,
        },
{
    let ghost ssv = schemas_view(schemas);
    let mut acc: Vec<FieldDef> = Vec::new();
    let mut k: usize = 0;
    assert(ssv.take(0) =~= Seq::<Seq<FieldView>>::empty());
    assert(schema_view(&acc) =~= Seq::<FieldView>::empty());
    while k < schemas.len()
        invariant
            k <= schemas@.len(),
            ssv == schemas_view(schemas),
            merge_schemas(ssv.take(k as int)) == Some(schema_view(&acc)),
            distinct_names(schema_view(&acc)),
        decreases schemas@.len() - k,
    {
        let s = &schemas[k];
        let ghost base = merge_schemas(ssv.take(k as int));
        let ghost sv = ssv[k as int];
        assert(sv == schema_view(s));
        let mut j: usize = 0;
        assert(sv.take(0) =~= Seq::<FieldView>::empty());
        while j < s.len()
            invariant
                k < schemas@.len(),
                ssv == schemas_view(schemas),
                base == merge_schemas(ssv.take(k as int)),
                sv == ssv[k as int],
                j <= s@.len(),
                sv == schema_view(s),
                merge_fields(base, sv.take(j as int)) == Some(schema_view(&acc)),
                distinct_names(schema_view(&acc)),
            decreases s@.len() - j,
        {
            let f = &s[j];
            let ghost a = schema_view(&acc);
            assert(sv.take(j + 1).drop_last() =~= sv.take(j as int));
            assert(sv.take(j + 1).last() == field_view(*f));
            match find_field(&acc, &f.name) {
                None => {
                    acc.push(FieldDef {
                        name: f.name.clone(),
                        data_type: f.data_type.clone(),
                        nullable: f.nullable,
                    });
                    assert(schema_view(&acc) =~= a.push(field_view(*f)));
                    proof {
                        lemma_add_field_distinct(a, field_view(*f));
                    }
                },
                Some(i) => {
                    assert(has_name(a, f.name@)) by {
                        assert(a[i as int].0 == f.name@);
                    }
                    let ghost c = choose|c: int| 0 <= c < a.len() && (#[trigger] a[c]).0 == f.name@;
                    assert(c == i) by {
                        if c < i {
                            assert(a[c].0 != a[i as int].0);
                        } else if c > i {
                            assert(a[i as int].0 != a[c].0);
                        }
                    }
                    if acc[i].data_type == f.data_type {
                        let merged = FieldDef {
                            name: acc[i].name.clone(),
                            data_type: acc[i].data_type.clone(),
                            nullable: acc[i].nullable || f.nullable,
                        };
                        acc.set(i, merged);
                        assert(schema_view(&acc) =~= a.update(
                            i as int,
                            (a[i as int].0, a[i as int].1, a[i as int].2 || f.nullable),
                        ));
                        proof {
                            lemma_add_field_distinct(a, field_view(*f));
                        }
                    } else {
                        proof {
                            lemma_merge_fields_prefix_none(base, sv, j + 1);
                            assert(ssv.take(k + 1).drop_last() =~= ssv.take(k as int));
                            lemma_merge_schemas_prefix_none(ssv, k + 1);
                        }
                        return Err(MergeError::SchemaConflict);
                    }
                },
            }
            j = j + 1;
        }
        assert(sv.take(j as int) =~= sv);
        assert(ssv.take(k + 1).drop_last() =~= ssv.take(k as int));
        k = k + 1;
    }
    assert(ssv.take(k as int) =~= ssv);
    let ghost u = schema_view(&acc);
    let mut out: Vec<FieldDef> = Vec::new();
    let mut i: usize = 0;
    while i < acc.len()
        invariant
            i <= acc@.len(),
            ssv == schemas_view(schemas),
            u == schema_view(&acc),
            schema_view(&out) =~= Seq::new(
                i as nat,
                |x: int| (u[x].0, u[x].1, u[x].2 || !in_every(ssv, u[x].0)),
            ),
        decreases acc@.len() - i,
    {
        let everywhere = present_in_every(schemas, &acc[i].name);
        let ghost prev = schema_view(&out);
        out.push(FieldDef {
            name: acc[i].name.clone(),
            data_type: acc[i].data_type.clone(),
            nullable: acc[i].nullable || !everywhere,
        });
        assert(schema_view(&out) =~= prev.push(
            (u[i as int].0, u[i as int].1, u[i as int].2 || !in_every(ssv, u[i as int].0)),
        ));
        i = i + 1;
    }
    Ok(out)
}

/// `e` says where the column of the target field called `name` comes from in
/// a batch with fields `local`: the first local field of that name, or `None`
/// (a column of nulls) when there is none.
pub open spec fn plan_entry(local: Seq<FieldView>, name: Seq<char>, e: Option<usize>) -> bool {
    match e {
        None => !has_name(local, name),
        Some(j) => {
            &&& j < local.len()
            &&& local[j as int].0 == name
            &&& forall|k: int| 0 <= k < j ==> (#[trigger] local[k]).0 != name
        },
    }
}

/// How to adapt a batch with fields `local` to the schema `target`: for each
/// target field in order, the position of the local column that fills it, or
/// `None` where the column is all nulls. Rows are never touched.
pub fn column_plan(target: &Vec<FieldDef>, local: &Vec<FieldDef>) -> (r: Vec<Option<usize>>)
    ensures
        r@.len() == target@.len(),
        forall|i: int|
            0 <= i < r@.len() ==> plan_entry(schema_view(local), target@[i].name@, #[trigger] r@[i]),
{
    let mut plan: Vec<Option<usize>> = Vec::with_capacity(target.len());
    let mut i: usize = 0;
    while i < target.len()
        invariant
            i <= target@.len(),
            plan@.len() == i,
            forall|x: int|
                0 <= x < i ==> plan_entry(schema_view(local), target@[x].name@, #[trigger] plan@[x]),
        decreases target@.len() - i,
    {
        let e = find_field(local, &target[i].name);
        plan.push(e);
        i = i + 1;
    }
    plan
}

/// The names of `fields`, in order.
pub open spec fn names_of(fields: Seq<FieldView>) -> Seq<Seq<char>> {
    Seq::new(fields.len(), |i: int| fields[i].0)
}

/// The names of all fields of all schemas, schema after schema.
pub open spec fn all_names(ss: Seq<Seq<FieldView>>) -> Seq<Seq<char>>
    decreases ss.len(),
{
    if ss.len() == 0 {
        Seq::empty()
    } else {
        all_names(ss.drop_last()) + names_of(ss.last())
    }
}

/// `d` followed by each name of `s` that is not yet among the names before
/// it, in the order of `s`.
pub open spec fn extend_new(d: Seq<Seq<char>>, s: Seq<Seq<char>>) -> Seq<Seq<char>>
    decreases s.len(),
{
    if s.len() == 0 {
        d
    } else {
        let e = extend_new(d, s.drop_last());
        if e.contains(s.last()) {
            e
        } else {
            e.push(s.last())
        }
    }
}

proof fn lemma_add_field_names(acc: Seq<FieldView>, f: FieldView)
    requires
        add_field(acc, f) is Some,
    ensures
        names_of(add_field(acc, f)->0) == (if names_of(acc).contains(f.0) {
            names_of(acc)
        } else {
            names_of(acc).push(f.0)
        }),
{
    let b = add_field(acc, f)->0;
    if has_name(acc, f.0) {
        let i = choose|i: int| 0 <= i < acc.len() && (#[trigger] acc[i]).0 == f.0;
        assert(names_of(acc)[i] == f.0);
        assert(names_of(b) =~= names_of(acc));
    } else {
        if names_of(acc).contains(f.0) {
            let i = choose|i: int| 0 <= i < names_of(acc).len() && names_of(acc)[i] == f.0;
            assert(acc[i].0 == f.0);
        }
        assert(names_of(b) =~= names_of(acc).push(f.0));
    }
}

proof fn lemma_merge_fields_names_order(a: Seq<FieldView>, s: Seq<FieldView>)
    requires
        merge_fields(Some(a), s) is Some,
    ensures
        names_of(merge_fields(Some(a), s)->0) == extend_new(names_of(a), names_of(s)),
    decreases s.len(),
{
    if s.len() > 0 {
        let p = s.drop_last();
        lemma_merge_fields_names_order(a, p);
        lemma_add_field_names(merge_fields(Some(a), p)->0, s.last());
        assert(names_of(s).drop_last() =~= names_of(p));
    }
}

proof fn lemma_extend_new_concat(d: Seq<Seq<char>>, x: Seq<Seq<char>>, y: Seq<Seq<char>>)
    ensures
        extend_new(d, x + y) == extend_new(extend_new(d, x), y),
    decreases y.len(),
{
    if y.len() == 0 {
        assert(x + y =~= x);
    } else {
        lemma_extend_new_concat(d, x, y.drop_last());
        assert((x + y).drop_last() =~= x + y.drop_last());
        assert((x + y).last() == y.last());
    }
}

proof fn lemma_merge_schemas_names_order(ss: Seq<Seq<FieldView>>)
    requires
        merge_schemas(ss) is Some,
    ensures
        names_of(merge_schemas(ss)->0) == extend_new(Seq::empty(), all_names(ss)),
    decreases ss.len(),
{
    if ss.len() == 0 {
        assert(names_of(merge_schemas(ss)->0) =~= Seq::<Seq<char>>::empty());
    } else {
        let p = ss.drop_last();
        if merge_schemas(p) is None {
            lemma_merge_fields_none(ss.last());
        }
        lemma_merge_schemas_names_order(p);
        lemma_merge_fields_names_order(merge_schemas(p)->0, ss.last());
        lemma_extend_new_concat(Seq::empty(), all_names(p), names_of(ss.last()));
    }
}

/// The unified schema names the fields in order of first appearance: its
/// names are all input names, schema after schema, each kept only where it
/// occurs for the first time.
pub proof fn lemma_unified_order(ss: Seq<Seq<FieldView>>)
    requires
        unified(ss) is Some,
    ensures
        names_of(unified(ss)->0) == extend_new(Seq::empty(), all_names(ss)),
{
    lemma_merge_schemas_names_order(ss);
    assert(names_of(unified(ss)->0) =~= names_of(merge_schemas(ss)->0));
}

/// Adapting a batch of any input stream to the unified schema is sound: a
/// unified field that the stream's schema lacks, which adaptation fills with
/// nulls, is nullable.
pub proof fn lemma_absent_fields_nullable(ss: Seq<Seq<FieldView>>, k: int, i: int)
    requires
        unified(ss) is Some,
        0 <= k < ss.len(),
        0 <= i < unified(ss)->0.len(),
        !has_name(ss[k], unified(ss)->0[i].0),
    ensures
        unified(ss)->0[i].2,
{
}

proof fn lemma_merge_fields_distinct_self(s: Seq<FieldView>)
    requires
        distinct_names(s),
    ensures
        merge_fields(Some(Seq::empty()), s) == Some(s),
    decreases s.len(),
{
    if s.len() > 0 {
        let p = s.drop_last();
        assert(distinct_names(p));
        lemma_merge_fields_distinct_self(p);
        if has_name(p, s.last().0) {
            let j = choose|j: int| 0 <= j < p.len() && (#[trigger] p[j]).0 == s.last().0;
            assert(s[j].0 != s[s.len() - 1].0);
        }
        assert(p.push(s.last()) =~= s);
    }
}

/// Reconciling a single schema whose names are distinct yields that schema
/// unchanged: each batch of that stream is adapted to its own schema.
pub proof fn lemma_unified_single(s: Seq<FieldView>)
    requires
        distinct_names(s),
    ensures
        unified(seq![s]) == Some(s),
{
    let ss = seq![s];
    assert(ss.drop_last() =~= Seq::<Seq<FieldView>>::empty());
    assert(merge_schemas(ss.drop_last()) == Some(Seq::<FieldView>::empty()));
    assert(ss.last() == s);
    lemma_merge_fields_distinct_self(s);
    assert(merge_schemas(ss) == Some(s));
    let u = unified(ss)->0;
    assert forall|i: int| 0 <= i < s.len() implies in_every(ss, #[trigger] s[i].0) by {
        assert forall|k: int| 0 <= k < ss.len() implies has_name(#[trigger] ss[k], s[i].0) by {
            assert(ss[k][i].0 == s[i].0);
        }
    }
    assert forall|i: int| 0 <= i < s.len() implies u[i] == s[i] by {
        assert(in_every(ss, s[i].0));
    }
    assert(u =~= s);
}

} // verus!
