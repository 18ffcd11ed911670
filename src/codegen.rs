//! The generation driver: extracts the schema's types, offers each to the
//! classifiers in priority order, and renders the named ones into the output.
use vstd::prelude::*;
use crate::handlers::{classify, claims, first_claimant, handler_order, Handler};
use crate::naming::{identifier_of, is_meta_name, replace_query};
use crate::render::{first_untyped, members_of, opt_view, render_spec, RenderError};
use crate::schema::{present_types, FullType, IntrospectionResponse, Schema};
use crate::tokens::{
    formatted_rust, token_items, tokens_append, tokens_format_file, tokens_new, tokens_push,
    tokens_register_import, TokenItem, TokenStream,
};

verus! {

/// Why generation did not happen.
#[derive(Clone, Debug)]
pub enum CodegenError {
    /// The introspection response carries no schema.
    MissingSchema,
    /// The schema has no types collection.
    MissingTypes,
    /// A classifier failed to render a type.
    Render(RenderError),
}

/// The references of `s`, followed.
pub open spec fn deref_all(s: Seq<&FullType>) -> Seq<FullType> {
    s.map_values(|r: &FullType| *r)
}

/// The position of a classifier in priority order.
pub open spec fn handler_index(h: Handler) -> int {
    match h {
        Handler::Scalar => 0,
        Handler::Enumeration => 1,
        Handler::Input => 2,
        Handler::Object => 3,
    }
}

/// Each type of `g`, paired with classifier `h`.
pub open spec fn paired(h: Handler, g: Seq<FullType>) -> Seq<(Handler, FullType)> {
    g.map_values(|t: FullType| (h, t))
}

/// The steps of the first `k` classifiers: each classifier with each type
/// it renders, classifiers in priority order, types in schema order.
pub open spec fn plan_upto(ts: Seq<FullType>, k: nat) -> Seq<(Handler, FullType)>
    decreases k,
{
    if k == 0 {
        Seq::empty()
    } else {
        plan_upto(ts, (k - 1) as nat) + paired(
            handler_order()[k - 1],
            group_of(ts, handler_order()[k - 1]),
        )
    }
}

/// The order in which types are offered for rendering.
pub open spec fn render_plan(ts: Seq<FullType>) -> Seq<(Handler, FullType)> {
    plan_upto(ts, 4)
}

/// The steps of `s`, their references followed.
pub open spec fn deref_steps(s: Seq<(Handler, &FullType)>) -> Seq<(Handler, FullType)> {
    s.map_values(|p: (Handler, &FullType)| (p.0, *p.1))
}

/// The fragments rendered by `steps`, in order; a step whose type has no
/// identifier renders nothing. `None` where a step fails.
pub open spec fn fragments(steps: Seq<(Handler, FullType)>) -> Option<Seq<Seq<char>>>
    decreases steps.len(),
{
    if steps.len() == 0 {
        Some(Seq::empty())
    } else {
        match fragments(steps.drop_last()) {
            None => None,
            Some(fs) => match ident_of(steps.last().1) {
                None => Some(fs),
                Some(id) => match render_spec(steps.last().0, steps.last().1, id) {
                    Some(f) => Some(fs.push(f)),
                    None => None,
                },
            },
        }
    }
}

/// The index of the step at which `fragments(steps)` fails.
pub open spec fn first_failure(steps: Seq<(Handler, FullType)>) -> int
    decreases steps.len(),
{
    if steps.len() == 0 {
        0
    } else if fragments(steps.drop_last()) is None {
        first_failure(steps.drop_last())
    } else {
        steps.len() - 1
    }
}

/// The header line and the two base-type registrations that open every
/// output.
pub open spec fn header_items() -> Seq<TokenItem> {
    seq![
        TokenItem::Push,
        TokenItem::Text("// code generated by dagger. DO NOT EDIT."@),
        TokenItem::Push,
        TokenItem::Import("dagger_core"@, "Int"@),
        TokenItem::Import("dagger_core"@, "Boolean"@),
    ]
}

/// Each fragment of `fs` on a line of its own, in order.
pub open spec fn fragment_items(fs: Seq<Seq<char>>) -> Seq<TokenItem>
    decreases fs.len(),
{
    if fs.len() == 0 {
        Seq::empty()
    } else {
        fragment_items(fs.drop_last()) + seq![TokenItem::Push, TokenItem::Text(fs.last())]
    }
}

/// What generating from `schema` returns: `MissingTypes` where it has no
/// types collection; where a renderer fails, the error of the first step at
/// which one fails, naming its type and its first field that names no type;
/// else the formatted header and fragments.
pub open spec fn generation_outcome(schema: Schema, r: Result<String, CodegenError>) -> bool {
    match extracted(schema) {
        None => r matches Err(CodegenError::MissingTypes),
        Some(ts) => match fragments(render_plan(ts)) {
            None => {
                let step = render_plan(ts)[first_failure(render_plan(ts))];
                let members = members_of(step.0, step.1);
                &&& r matches Err(CodegenError::Render(e))
                &&& e.type_label@ == step.1.name->Some_0@
                &&& e.field@ == members[first_untyped(members)].name@
            },
            Some(fs) => r matches Ok(s) && s@ == formatted_rust(
                header_items() + fragment_items(fs),
            ),
        },
    }
}

/// How many types of `ts` no classifier claims.
pub open spec fn unclassified_count(ts: Seq<FullType>) -> nat
    decreases ts.len(),
{
    if ts.len() == 0 {
        0
    } else if classify(ts.last()) is None {
        unclassified_count(ts.drop_last()) + 1
    } else {
        unclassified_count(ts.drop_last())
    }
}

/// The types that the schema's collection holds, or `None` where it has no
/// collection.
pub open spec fn extracted(s: Schema) -> Option<Seq<FullType>> {
    match s.types {
        Some(v) => Some(present_types(v@)),
        None => None,
    }
}

/// The types of `ts` that classifier `h` renders, in order.
pub open spec fn group_of(ts: Seq<FullType>, h: Handler) -> Seq<FullType>
    decreases ts.len(),
{
    if ts.len() == 0 {
        Seq::empty()
    } else if classify(ts.last()) == Some(h) {
        group_of(ts.drop_last(), h).push(ts.last())
    } else {
        group_of(ts.drop_last(), h)
    }
}

/// The generated identifier of `t`, if it is generated at all.
pub open spec fn ident_of(t: FullType) -> Option<Seq<char>> {
    identifier_of(opt_view(t.name))
}

/// The generator: the classifiers in priority order.
pub struct CodeGeneration {
    handlers: Vec<Handler>,
}

impl CodeGeneration {
    /// The classifiers are the four, in priority order.
    pub closed spec fn wf(&self) -> bool {
        self.handlers@ == handler_order()
    }

    pub fn new() -> (r: Self)
        ensures
            r.wf(),
    {
        let r = CodeGeneration {
            handlers: vec![Handler::Scalar, Handler::Enumeration, Handler::Input, Handler::Object],
        };
        proof {
            assert(r.handlers@ =~= handler_order());
        }
        r
    }

    /// The classifier that renders `t`: the first that claims it.
    fn group_key(&self, t: &FullType) -> (r: Option<Handler>)
        requires
            self.wf(),
        ensures
            r == classify(*t),
    {
        let n = self.handlers.len();
        let mut i: usize = 0;
        proof {
            assert(self.handlers@.subrange(0, 4) =~= handler_order());
        }
        while i < n
            invariant
                n == 4,
                i <= n,
                self.wf(),
                first_claimant(self.handlers@.subrange(i as int, 4), *t) == classify(*t),
            decreases n - i,
        {
            proof {
                assert(self.handlers@.subrange(i as int, 4).drop_first()
                    =~= self.handlers@.subrange(i + 1, 4));
            }
            let h = self.handlers[i];
            if h.predicate(t) {
                return Some(h);
            }
            i = i + 1;
        }
        None
    }

    /// For each classifier in priority order, the types of `types` that it
    /// renders, in their order in `types`. Each type goes to the first
    /// classifier that claims it, and to no other.
    pub fn group_by_handlers<'a>(&self, types: &Vec<&'a FullType>) -> (r: Vec<(Handler, Vec<&'a FullType>)>)
        requires
            self.wf(),
        ensures
            r@.len() == 4,
            forall|k: int|
                0 <= k < 4 ==> (#[trigger] r@[k]).0 == handler_order()[k] && deref_all(r@[k].1@)
                    == group_of(deref_all(types@), handler_order()[k]),
    {
        let mut group: Vec<(Handler, Vec<&'a FullType>)> = Vec::new();
        let mut k: usize = 0;
        while k < self.handlers.len()
            invariant
                self.wf(),
                k <= 4,
                group@.len() == k,
                forall|j: int|
                    0 <= j < k ==> (#[trigger] group@[j]).0 == handler_order()[j] && deref_all(
                        group@[j].1@,
                    ) == group_of(deref_all(types@), handler_order()[j]),
            decreases 4 - k,
        {
            let handler = self.handlers[k];
            let mut group_types: Vec<&'a FullType> = Vec::new();
            let mut i: usize = 0;
            while i < types.len()
                invariant
                    self.wf(),
                    i <= types@.len(),
                    handler == handler_order()[k as int],
                    deref_all(group_types@) =~= group_of(
                        deref_all(types@.subrange(0, i as int)),
                        handler,
                    ),
                decreases types@.len() - i,
            {
                proof {
                    assert(deref_all(types@.subrange(0, i + 1)).drop_last() =~= deref_all(
                        types@.subrange(0, i as int),
                    ));
                    assert(deref_all(types@.subrange(0, i + 1)).last() == *types@[i as int]);
                }
                let t = types[i];
                match self.group_key(t) {
                    Some(h) => {
                        if h == handler {
                            group_types.push(t);
                        }
                    },
                    None => {},
                }
                i = i + 1;
            }
            proof {
                assert(types@.subrange(0, types@.len() as int) =~= types@);
            }
            group.push((handler, group_types));
            k = k + 1;
        }
        group
    }

    /// Generates the client source for the schema of `response`.
    pub fn generate(&self, response: &IntrospectionResponse) -> (r: Result<String, CodegenError>)
        requires
            self.wf(),
        ensures
            match response.schema {
                None => r matches Err(CodegenError::MissingSchema),
                Some(schema) => generation_outcome(schema, r),
            },
    {
        match &response.schema {
            None => Err(CodegenError::MissingSchema),
            Some(schema) => self.generate_from_schema(schema),
        }
    }

    /// Generates the client source for `schema`.
    pub fn generate_from_schema(&self, schema: &Schema) -> (r: Result<String, CodegenError>)
        requires
            self.wf(),
        ensures
            generation_outcome(*schema, r),
    {
        let mut output = tokens_new();
        tokens_push(&mut output);
        tokens_append(&mut output, String::from_str("// code generated by dagger. DO NOT EDIT."));
        tokens_push(&mut output);
        render_base_types(&mut output);
        proof {
            assert(token_items(output) =~= header_items());
        }
        let types = get_types(schema)?;
        let plan = self.plan(&types);
        let ghost steps = deref_steps(plan@);
        let ghost frags: Seq<Seq<char>> = Seq::empty();
        let mut i: usize = 0;
        proof {
            assert(steps.subrange(0, 0) =~= Seq::<(Handler, FullType)>::empty());
        }
        while i < plan.len()
            invariant
                self.wf(),
                i <= plan@.len(),
                steps == deref_steps(plan@),
                extracted(*schema) == Some(deref_all(types@)),
                steps == render_plan(deref_all(types@)),
                fragments(steps.subrange(0, i as int)) == Some(frags),
                token_items(output) == header_items() + fragment_items(frags),
            decreases plan@.len() - i,
        {
            let h = plan[i].0;
            let t = plan[i].1;
            proof {
                assert(steps.subrange(0, i + 1).drop_last() =~= steps.subrange(0, i as int));
                assert(steps.subrange(0, i + 1).last() == (h, *t));
            }
            if let Some(id) = self.generated_name(t) {
                match h.render(t, id.as_str()) {
                    Ok(rendered) => {
                        tokens_push(&mut output);
                        tokens_append(&mut output, rendered);
                        proof {
                            let f = rendered@;
                            assert(fragment_items(frags.push(f)) =~= fragment_items(frags) + seq![
                                TokenItem::Push,
                                TokenItem::Text(f),
                            ]) by {
                                assert(frags.push(f).drop_last() =~= frags);
                            }
                            frags = frags.push(f);
                        }
                    },
                    Err(e) => {
                        proof {
                            let fail = steps.subrange(0, i + 1);
                            assert(first_failure(fail) == i);
                            lemma_failure_persists(fail, steps.subrange(i + 1, steps.len() as int));
                            assert(fail + steps.subrange(i + 1, steps.len() as int) =~= steps);
                        }
                        return Err(CodegenError::Render(e));
                    },
                }
            }
            i = i + 1;
        }
        proof {
            assert(steps.subrange(0, steps.len() as int) =~= steps);
        }
        let text = tokens_format_file(&output).unwrap();
        Ok(text)
    }

    /// How many types of `types` no classifier claims; generation drops
    /// them without error.
    pub fn count_unclassified(&self, types: &Vec<&FullType>) -> (r: usize)
        requires
            self.wf(),
        ensures
            r == unclassified_count(deref_all(types@)),
    {
        let mut n: usize = 0;
        let mut i: usize = 0;
        while i < types.len()
            invariant
                self.wf(),
                i <= types@.len(),
                n <= i,
                n == unclassified_count(deref_all(types@.subrange(0, i as int))),
            decreases types@.len() - i,
        {
            proof {
                assert(deref_all(types@.subrange(0, i + 1)).drop_last() =~= deref_all(
                    types@.subrange(0, i as int),
                ));
                assert(deref_all(types@.subrange(0, i + 1)).last() == *types@[i as int]);
            }
            if self.group_key(types[i]).is_none() {
                n = n + 1;
            }
            i = i + 1;
        }
        proof {
            assert(types@.subrange(0, types@.len() as int) =~= types@);
        }
        n
    }

    /// Every type of `types` with the classifier that renders it: the
    /// classifiers in priority order, and for each the types it renders in
    /// their order in `types`.
    fn plan<'a>(&self, types: &Vec<&'a FullType>) -> (r: Vec<(Handler, &'a FullType)>)
        requires
            self.wf(),
        ensures
            deref_steps(r@) == render_plan(deref_all(types@)),
    {
        let groups = self.group_by_handlers(types);
        let ghost ts = deref_all(types@);
        let mut out: Vec<(Handler, &'a FullType)> = Vec::new();
        let mut k: usize = 0;
        while k < groups.len()
            invariant
                groups@.len() == 4,
                k <= 4,
                forall|j: int|
                    0 <= j < 4 ==> (#[trigger] groups@[j]).0 == handler_order()[j] && deref_all(
                        groups@[j].1@,
                    ) == group_of(ts, handler_order()[j]),
                deref_steps(out@) =~= plan_upto(ts, k as nat),
            decreases 4 - k,
        {
            let h = groups[k].0;
            let g = &groups[k].1;
            let ghost before = out@;
            let mut i: usize = 0;
            while i < g.len()
                invariant
                    i <= g@.len(),
                    h == handler_order()[k as int],
                    deref_all(g@) == group_of(ts, h),
                    deref_steps(before) =~= plan_upto(ts, k as nat),
                    deref_steps(out@) =~= deref_steps(before) + paired(
                        h,
                        deref_all(g@).subrange(0, i as int),
                    ),
                decreases g@.len() - i,
            {
                let ghost prev = out@;
                out.push((h, g[i]));
                proof {
                    assert(out@ == prev.push((h, g@[i as int])));
                    assert(deref_steps(out@) =~= deref_steps(prev).push((h, *g@[i as int])));
                    assert(paired(h, deref_all(g@).subrange(0, i + 1)) =~= paired(
                        h,
                        deref_all(g@).subrange(0, i as int),
                    ).push((h, *g@[i as int])));
                }
                i = i + 1;
            }
            proof {
                assert(deref_all(g@).subrange(0, g@.len() as int) =~= deref_all(g@));
            }
            k = k + 1;
        }
        out
    }

    /// The identifier under which `t` is generated: its display name with
    /// every `Query` replaced by `Client`; `None` where it has no display
    /// name or the name starts with `_`.
    pub fn generated_name(&self, t: &FullType) -> (r: Option<String>)
        ensures
            opt_view(r) == ident_of(*t),
    {
        match &t.name {
            None => None,
            Some(name) => {
                let s = name.as_str();
                if s.unicode_len() > 0 && s.get_char(0) == '_' {
                    None
                } else {
                    Some(replace_query(s))
                }
            },
        }
    }

    /// A key for sorting named types: the position of the classifier that
    /// renders the type, or -1 where none does, then its display name.
    fn sort_key(&self, t: &FullType) -> (r: (isize, String))
        requires
            self.wf(),
            t.name is Some,
        ensures
            r.0 == match classify(*t) {
                Some(h) => handler_index(h),
                None => -1,
            },
            r.1@ == t.name->Some_0@,
    {
        let name = match &t.name {
            Some(n) => n.clone(),
            None => String::new(),
        };
        match self.group_key(t) {
            Some(Handler::Scalar) => (0, name),
            Some(Handler::Enumeration) => (1, name),
            Some(Handler::Input) => (2, name),
            Some(Handler::Object) => (3, name),
            None => (-1, name),
        }
    }
}

/// Registers the schema's integer and boolean base types.
fn render_base_types(output: &mut TokenStream)
    ensures
        token_items(*final(output)) == token_items(*old(output)) + seq![
            TokenItem::Import("dagger_core"@, "Int"@),
            TokenItem::Import("dagger_core"@, "Boolean"@),
        ],
{
    tokens_register_import(output, "dagger_core", "Int");
    tokens_register_import(output, "dagger_core", "Boolean");
    proof {
        assert(token_items(*output) =~= token_items(*old(output)) + seq![
            TokenItem::Import("dagger_core"@, "Int"@),
            TokenItem::Import("dagger_core"@, "Boolean"@),
        ]);
    }
}

/// A failure in a prefix of the steps is the failure of the whole.
proof fn lemma_failure_persists(s: Seq<(Handler, FullType)>, x: Seq<(Handler, FullType)>)
    requires
        fragments(s) is None,
    ensures
        fragments(s + x) is None,
        first_failure(s + x) == first_failure(s),
    decreases x.len(),
{
    if x.len() == 0 {
        assert(s + x =~= s);
    } else {
        lemma_failure_persists(s, x.drop_last());
        assert((s + x).drop_last() =~= s + x.drop_last());
    }
}

/// The types of the schema's collection that are present, in order.
pub fn get_types(schema: &Schema) -> (r: Result<Vec<&FullType>, CodegenError>)
    ensures
        match extracted(*schema) {
            Some(ts) => r matches Ok(v) && deref_all(v@) == ts,
            None => r matches Err(CodegenError::MissingTypes),
        },
{
    let types = match &schema.types {
        Some(v) => v,
        None => return Err(CodegenError::MissingTypes),
    };
    let mut out: Vec<&FullType> = Vec::new();
    let mut i: usize = 0;
    while i < types.len()
        invariant
            i <= types@.len(),
            deref_all(out@) =~= present_types(types@.subrange(0, i as int)),
        decreases types@.len() - i,
    {
        proof {
            assert(types@.subrange(0, i + 1).drop_last() =~= types@.subrange(0, i as int));
            assert(types@.subrange(0, i + 1).last() == types@[i as int]);
        }
        if let Some(t) = &types[i] {
            out.push(t);
        }
        i = i + 1;
    }
    proof {
        assert(types@.subrange(0, types@.len() as int) =~= types@);
    }
    Ok(out)
}

} // verus!

verus! {

/// A schema whose types collection is empty generates exactly the header and
/// the two base-type registrations.
pub proof fn lemma_empty_schema_output(schema: Schema, r: Result<String, CodegenError>)
    requires
        extracted(schema) == Some(Seq::<FullType>::empty()),
        generation_outcome(schema, r),
    ensures
        r matches Ok(s) && s@ == formatted_rust(header_items()),
{
    let ts = Seq::<FullType>::empty();
    assert(plan_upto(ts, 0) =~= Seq::<(Handler, FullType)>::empty());
    assert(plan_upto(ts, 1) =~= Seq::<(Handler, FullType)>::empty());
    assert(plan_upto(ts, 2) =~= Seq::<(Handler, FullType)>::empty());
    assert(plan_upto(ts, 3) =~= Seq::<(Handler, FullType)>::empty());
    assert(plan_upto(ts, 4) =~= Seq::<(Handler, FullType)>::empty());
    assert(header_items() + fragment_items(Seq::empty()) =~= header_items());
}

/// Where the steps fail, the failing step is one of them.
proof fn lemma_failure_in_range(s: Seq<(Handler, FullType)>)
    requires
        fragments(s) is None,
    ensures
        0 <= first_failure(s) < s.len(),
    decreases s.len(),
{
    if s.len() > 0 && fragments(s.drop_last()) is None {
        lemma_failure_in_range(s.drop_last());
    }
}

/// Whether two runs of steps render the same fragments and, where they fail,
/// fail at the same step.
pub open spec fn alike_steps(p: Seq<(Handler, FullType)>, q: Seq<(Handler, FullType)>) -> bool {
    &&& fragments(p) == fragments(q)
    &&& fragments(p) is None ==> p[first_failure(p)] == q[first_failure(q)]
}

/// A step whose type has no identifier (no display name, or one that starts
/// with `_`) renders nothing and cannot fail, wherever it stands among the
/// steps: the steps with it and without it are alike.
pub proof fn lemma_unnamed_step_renders_nothing(
    a: Seq<(Handler, FullType)>,
    x: (Handler, FullType),
    b: Seq<(Handler, FullType)>,
)
    requires
        ident_of(x.1) is None,
    ensures
        alike_steps(a.push(x) + b, a + b),
    decreases b.len(),
{
    let w = a.push(x) + b;
    let o = a + b;
    if b.len() == 0 {
        assert(w =~= a.push(x));
        assert(o =~= a);
        assert(a.push(x).drop_last() =~= a);
        if fragments(a) is None {
            lemma_failure_in_range(a);
        }
    } else {
        lemma_unnamed_step_renders_nothing(a, x, b.drop_last());
        assert(w.drop_last() =~= a.push(x) + b.drop_last());
        assert(o.drop_last() =~= a + b.drop_last());
        assert(w.last() == o.last());
        if fragments(o.drop_last()) is None {
            lemma_failure_in_range(w.drop_last());
            lemma_failure_in_range(o.drop_last());
        }
    }
}

/// A classifier's group of a concatenation is the concatenation of its
/// groups.
proof fn lemma_group_concat(s: Seq<FullType>, t: Seq<FullType>, h: Handler)
    ensures
        group_of(s + t, h) == group_of(s, h) + group_of(t, h),
    decreases t.len(),
{
    if t.len() == 0 {
        assert(s + t =~= s);
        assert(group_of(s, h) + group_of(t, h) =~= group_of(s, h));
    } else {
        lemma_group_concat(s, t.drop_last(), h);
        assert((s + t).drop_last() =~= s + t.drop_last());
        assert((s + t).last() == t.last());
        if classify(t.last()) == Some(h) {
            assert(group_of(s, h) + group_of(t, h) =~= (group_of(s, h) + group_of(
                t.drop_last(),
                h,
            )).push(t.last()));
        }
    }
}
/// Alike steps stay alike when the same steps follow.
proof fn lemma_alike_extend(
    p: Seq<(Handler, FullType)>,
    q: Seq<(Handler, FullType)>,
    x: Seq<(Handler, FullType)>,
)
    requires
        alike_steps(p, q),
    ensures
        alike_steps(p + x, q + x),
    decreases x.len(),
{
    if x.len() == 0 {
        assert(p + x =~= p);
        assert(q + x =~= q);
    } else {
        lemma_alike_extend(p, q, x.drop_last());
        assert((p + x).drop_last() =~= p + x.drop_last());
        assert((q + x).drop_last() =~= q + x.drop_last());
        assert((p + x).last() == (q + x).last());
        if fragments(q + x.drop_last()) is None {
            lemma_failure_in_range(p + x.drop_last());
            lemma_failure_in_range(q + x.drop_last());
        }
    }
}

/// Where a schema's types are `a`, then `x`, then `b`, and `x` has no
/// identifier (a meta-type whose display name starts with `_`, or a type
/// with no display name) or no classifier claims it, the render order with
/// `x` and without it are alike: `x` adds no fragment and no failure,
/// whatever its kind and wherever it stands.
pub proof fn lemma_skipped_type_leaves_plan_alike(a: Seq<FullType>, x: FullType, b: Seq<FullType>)
    requires
        ident_of(x) is None || classify(x) is None,
    ensures
        alike_steps(render_plan(a.push(x) + b), render_plan(a + b)),
{
    lemma_skipped_plan_upto(a, x, b, 4);
}

proof fn lemma_skipped_plan_upto(a: Seq<FullType>, x: FullType, b: Seq<FullType>, k: nat)
    requires
        ident_of(x) is None || classify(x) is None,
        k <= 4,
    ensures
        alike_steps(plan_upto(a.push(x) + b, k), plan_upto(a + b, k)),
    decreases k,
{
    let with = a.push(x) + b;
    let without = a + b;
    if k > 0 {
        lemma_skipped_plan_upto(a, x, b, (k - 1) as nat);
        let h = handler_order()[k - 1];
        let p = plan_upto(with, (k - 1) as nat);
        let q = plan_upto(without, (k - 1) as nat);
        let ga = group_of(a, h);
        let gb = group_of(b, h);
        lemma_group_concat(a.push(x), b, h);
        lemma_group_concat(a, b, h);
        lemma_group_concat(a, seq![x], h);
        assert(a.push(x) =~= a + seq![x]);
        assert(seq![x].drop_last() =~= Seq::<FullType>::empty());
        assert(seq![x].last() == x);
        assert(group_of(Seq::<FullType>::empty(), h) =~= Seq::<FullType>::empty());
        if classify(x) == Some(h) {
            assert(group_of(seq![x], h) =~= seq![x]);
            assert(paired(h, group_of(with, h)) =~= paired(h, ga).push((h, x)) + paired(h, gb));
            assert(paired(h, group_of(without, h)) =~= paired(h, ga) + paired(h, gb));
            lemma_unnamed_step_renders_nothing(p + paired(h, ga), (h, x), paired(h, gb));
            assert((p + paired(h, ga)).push((h, x)) + paired(h, gb) =~= p + paired(
                h,
                group_of(with, h),
            ));
            assert(p + paired(h, ga) + paired(h, gb) =~= p + paired(h, group_of(without, h)));
            lemma_alike_extend(p, q, paired(h, group_of(without, h)));
        } else {
            assert(group_of(seq![x], h) =~= Seq::<FullType>::empty());
            assert(group_of(with, h) =~= group_of(without, h));
            lemma_alike_extend(p, q, paired(h, group_of(without, h)));
        }
    }
}

/// Adding a type that is never generated (a meta-type, a type with no
/// display name, or one that no classifier claims) anywhere in a schema's
/// types leaves the result of generation alike.
pub proof fn lemma_skipped_type_leaves_result_unchanged(
    s1: Schema,
    s2: Schema,
    a: Seq<FullType>,
    x: FullType,
    b: Seq<FullType>,
    r1: Result<String, CodegenError>,
    r2: Result<String, CodegenError>,
)
    requires
        extracted(s1) == Some(a.push(x) + b),
        extracted(s2) == Some(a + b),
        ident_of(x) is None || classify(x) is None,
        generation_outcome(s1, r1),
        generation_outcome(s2, r2),
    ensures
        same_result(r1, r2),
{
    lemma_skipped_type_leaves_plan_alike(a, x, b);
}

/// Whether two results are alike: the same text, or the same error with the
/// same names.
pub open spec fn same_result(r1: Result<String, CodegenError>, r2: Result<String, CodegenError>) -> bool {
    match (r1, r2) {
        (Ok(s1), Ok(s2)) => s1@ == s2@,
        (Err(CodegenError::MissingSchema), Err(CodegenError::MissingSchema)) => true,
        (Err(CodegenError::MissingTypes), Err(CodegenError::MissingTypes)) => true,
        (Err(CodegenError::Render(e1)), Err(CodegenError::Render(e2))) => e1.type_label@
            == e2.type_label@ && e1.field@ == e2.field@,
        _ => false,
    }
}

/// Generation depends on the present types alone: two schemas whose types
/// collections hold the same present types, in the same order (whatever
/// absent entries stand among them), or that both lack one, give alike
/// results. In particular generating twice from one schema does.
pub proof fn lemma_generation_deterministic(
    s1: Schema,
    s2: Schema,
    r1: Result<String, CodegenError>,
    r2: Result<String, CodegenError>,
)
    requires
        extracted(s1) == extracted(s2),
        generation_outcome(s1, r1),
        generation_outcome(s2, r2),
    ensures
        same_result(r1, r2),
{
}

/// Each type of a classifier's group is one that the classifier renders.
proof fn lemma_group_members(ts: Seq<FullType>, h: Handler, j: int)
    requires
        0 <= j < group_of(ts, h).len(),
    ensures
        classify(group_of(ts, h)[j]) == Some(h),
    decreases ts.len(),
{
    if ts.len() > 0 {
        if classify(ts.last()) == Some(h) && j == group_of(ts, h).len() - 1 {
        } else {
            lemma_group_members(ts.drop_last(), h, j);
        }
    }
}

/// A type is rendered by at most one classifier: where two groups both hold
/// it, they are the group of one classifier, the first in priority order
/// that claims it; no earlier classifier claims it.
pub proof fn lemma_one_classifier_per_type(ts: Seq<FullType>, t: FullType, h1: Handler, h2: Handler)
    requires
        group_of(ts, h1).contains(t),
        group_of(ts, h2).contains(t),
    ensures
        h1 == h2,
        classify(t) == Some(h1),
        claims(h1, t),
        forall|k: int| 0 <= k < handler_index(h1) ==> !claims(#[trigger] handler_order()[k], t),
{
    let j1 = choose|j: int| 0 <= j < group_of(ts, h1).len() && group_of(ts, h1)[j] == t;
    let j2 = choose|j: int| 0 <= j < group_of(ts, h2).len() && group_of(ts, h2)[j] == t;
    lemma_group_members(ts, h1, j1);
    lemma_group_members(ts, h2, j2);
    let o = handler_order();
    assert(o.drop_first() =~= seq![Handler::Enumeration, Handler::Input, Handler::Object]);
    assert(o.drop_first().drop_first() =~= seq![Handler::Input, Handler::Object]);
    assert(o.drop_first().drop_first().drop_first() =~= seq![Handler::Object]);
    assert(o.drop_first().drop_first().drop_first().drop_first() =~= Seq::<Handler>::empty());
    reveal_with_fuel(first_claimant, 5);
    assert forall|k: int| 0 <= k < handler_index(h1) implies !claims(
        #[trigger] handler_order()[k],
        t,
    ) by {
        if k == 1 {
            assert(o[1] == o.drop_first()[0]);
        } else if k == 2 {
            assert(o[2] == o.drop_first().drop_first()[0]);
        }
    }
}

} // verus!
