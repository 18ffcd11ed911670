//! What each classifier renders for a type it claims.
use vstd::prelude::*;
use crate::handlers::Handler;
use crate::naming::{client_word, query_word, replace_all, replace_query};
use crate::schema::{Field, FullType};

verus! {

/// A renderer could not render a type: `field` of type `type_label` names no
/// type.
#[derive(Clone, Debug)]
pub struct RenderError {
    pub type_label: String,
    pub field: String,
}

/// The view of an optional string.
pub open spec fn opt_view(o: Option<String>) -> Option<Seq<char>> {
    match o {
        Some(s) => Some(s@),
        None => None,
    }
}

/// The elements of an optional vector; none where it is absent.
pub open spec fn opt_seq<T>(o: Option<Vec<T>>) -> Seq<T> {
    match o {
        Some(v) => v@,
        None => Seq::empty(),
    }
}

/// The member line for a field, or `None` where the field names no type.
pub open spec fn field_line(f: Field) -> Option<Seq<char>> {
    match opt_view(f.of_type) {
        None => None,
        Some(ty) => Some(
            "    pub "@ + f.name@ + ": "@ + replace_all(ty, query_word(), client_word()) + ",\n"@,
        ),
    }
}

/// The member lines for `fs`, or `None` where one of them names no type.
pub open spec fn fields_text(fs: Seq<Field>) -> Option<Seq<char>>
    decreases fs.len(),
{
    if fs.len() == 0 {
        Some(Seq::empty())
    } else {
        match (fields_text(fs.drop_last()), field_line(fs.last())) {
            (Some(a), Some(b)) => Some(a + b),
            _ => None,
        }
    }
}

/// The index of the first field of `fs` that names no type.
pub open spec fn first_untyped(fs: Seq<Field>) -> int
    decreases fs.len(),
{
    if fs.len() == 0 {
        0
    } else if fields_text(fs.drop_last()) is None {
        first_untyped(fs.drop_last())
    } else {
        fs.len() - 1
    }
}

/// The variant lines for enum values `vs`.
pub open spec fn variants_text(vs: Seq<String>) -> Seq<char>
    decreases vs.len(),
{
    if vs.len() == 0 {
        Seq::empty()
    } else {
        variants_text(vs.drop_last()) + "    "@ + vs.last()@ + ",\n"@
    }
}

/// The members that classifier `h` renders of `t`.
pub open spec fn members_of(h: Handler, t: FullType) -> Seq<Field> {
    match h {
        Handler::Input => opt_seq(t.input_fields),
        Handler::Object => opt_seq(t.fields),
        _ => Seq::empty(),
    }
}

/// The fragment that classifier `h` renders for `t` under identifier `id`,
/// or `None` where it fails.
pub open spec fn render_spec(h: Handler, t: FullType, id: Seq<char>) -> Option<Seq<char>> {
    match h {
        Handler::Scalar => Some("pub type "@ + id + " = String;"@),
        Handler::Enumeration => Some(
            "pub enum "@ + id + " {\n"@ + variants_text(opt_seq(t.enum_values)) + "}"@,
        ),
        _ => match fields_text(members_of(h, t)) {
            Some(body) => Some("pub struct "@ + id + " {\n"@ + body + "}"@),
            None => None,
        },
    }
}

/// The member lines for `fs`; on failure the name of the first field that
/// names no type.
fn render_fields(fs: &Vec<Field>) -> (r: Result<String, String>)
    ensures
        match fields_text(fs@) {
            Some(text) => r matches Ok(s) && s@ == text,
            None => r matches Err(f) && 0 <= first_untyped(fs@) < fs@.len() && f@
                == fs@[first_untyped(fs@)].name@,
        },
{
    let mut out = String::new();
    let mut i: usize = 0;
    while i < fs.len()
        invariant
            i <= fs@.len(),
            fields_text(fs@.subrange(0, i as int)) == Some(out@),
        decreases fs@.len() - i,
    {
        proof {
            assert(fs@.subrange(0, i + 1).drop_last() =~= fs@.subrange(0, i as int));
        }
        let f = &fs[i];
        match &f.of_type {
            None => {
                proof {
                    lemma_untyped_stays(fs@, i as int);
                }
                return Err(f.name.clone());
            },
            Some(ty) => {
                out.append("    pub ");
                out.append(f.name.as_str());
                out.append(": ");
                let ty = replace_query(ty.as_str());
                out.append(ty.as_str());
                out.append(",\n");
            },
        }
        proof {
            assert(fs@.subrange(0, i + 1).last() == fs@[i as int]);
        }
        i = i + 1;
    }
    proof {
        assert(fs@.subrange(0, fs@.len() as int) =~= fs@);
    }
    Ok(out)
}

/// The variant lines for enum values `vs`.
fn render_variants(vs: &Vec<String>) -> (r: String)
    ensures
        r@ == variants_text(vs@),
{
    let mut out = String::new();
    let mut i: usize = 0;
    while i < vs.len()
        invariant
            i <= vs@.len(),
            variants_text(vs@.subrange(0, i as int)) == out@,
        decreases vs@.len() - i,
    {
        proof {
            assert(vs@.subrange(0, i + 1).drop_last() =~= vs@.subrange(0, i as int));
            assert(vs@.subrange(0, i + 1).last() == vs@[i as int]);
        }
        out.append("    ");
        out.append(vs[i].as_str());
        out.append(",\n");
        i = i + 1;
    }
    proof {
        assert(vs@.subrange(0, vs@.len() as int) =~= vs@);
    }
    out
}

impl Handler {
    /// Renders `t`, a type this classifier claims, under identifier `id`.
    /// Fails where a field of `t` that it renders names no type; the error
    /// carries `t`'s display name and that field's name.
    pub fn render(&self, t: &FullType, id: &str) -> (r: Result<String, RenderError>)
        requires
            t.name is Some,
        ensures
            match render_spec(*self, *t, id@) {
                Some(text) => r matches Ok(s) && s@ == text,
                None => r matches Err(e) && e.type_label@ == t.name->Some_0@ && 0 <= first_untyped(
                    members_of(*self, *t),
                ) < members_of(*self, *t).len() && e.field@ == members_of(*self, *t)[first_untyped(
                    members_of(*self, *t),
                )].name@,
            },
    {
        match self {
            Handler::Scalar => {
                let mut out = String::new();
                out.append("pub type ");
                out.append(id);
                out.append(" = String;");
                Ok(out)
            },
            Handler::Enumeration => {
                let mut out = String::new();
                out.append("pub enum ");
                out.append(id);
                out.append(" {\n");
                let body = match &t.enum_values {
                    Some(vs) => render_variants(vs),
                    None => String::new(),
                };
                out.append(body.as_str());
                out.append("}");
                Ok(out)
            },
            _ => {
                let members = if matches!(self, Handler::Input) {
                    &t.input_fields
                } else {
                    &t.fields
                };
                let body = match members {
                    Some(fs) => render_fields(fs),
                    None => Ok(String::new()),
                };
                match body {
                    Ok(body) => {
                        let mut out = String::new();
                        out.append("pub struct ");
                        out.append(id);
                        out.append(" {\n");
                        out.append(body.as_str());
                        out.append("}");
                        Ok(out)
                    },
                    Err(field) => {
                        let name = match &t.name {
                            Some(n) => n.clone(),
                            None => String::new(),
                        };
                        Err(RenderError { type_label: name, field })
                    },
                }
            },
        }
    }
}

/// Where the fields before `i` render and field `i` names no type, the whole
/// sequence fails, first at `i`.
proof fn lemma_untyped_stays(fs: Seq<Field>, i: int)
    requires
        0 <= i < fs.len(),
        fields_text(fs.subrange(0, i)) is Some,
        fs[i].of_type is None,
    ensures
        fields_text(fs) is None,
        first_untyped(fs) == i,
    decreases fs.len(),
{
    if i == fs.len() - 1 {
        assert(fs.drop_last() =~= fs.subrange(0, i));
    } else {
        assert(fs.drop_last().subrange(0, i) =~= fs.subrange(0, i));
        lemma_untyped_stays(fs.drop_last(), i);
    }
}

} // verus!
