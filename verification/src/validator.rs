use vstd::prelude::*;

use crate::pp::MapEntry;
use crate::pp::SourceMap;
use crate::pp::map_line_total_spec;
use crate::wgsl_error::ErrModel;
use crate::wgsl_error::WgslError;

verus! {

/// naga's validation error, carried opaquely so the caller can surface it.
#[verifier::external_type_specification]
#[verifier::external_body]
pub struct ExValidationError(naga::valid::ValidationError);

/// Whether naga's WGSL parser accepts the source: parsing is a function of
/// the source text alone.
pub uninterp spec fn wgsl_parse_ok(s: Seq<char>) -> bool;

/// The message naga renders for the source's parse error, read against that
/// same source.
pub uninterp spec fn wgsl_parse_msg(s: Seq<char>) -> Seq<char>;

/// The 1-based line and byte column naga reports for the source's parse
/// error, read against that same source; nothing when the error carries no
/// span.
pub uninterp spec fn wgsl_parse_loc(s: Seq<char>) -> Option<(usize, usize)>;

/// Whether the parsed module of the source passes naga's validation when
/// every validation flag and capability is switched on: with the
/// configuration fixed, the verdict is a function of the source alone.
pub uninterp spec fn wgsl_valid_ok(s: Seq<char>) -> bool;

/// The optional name of each type the parsed module declares, in the
/// module's own order.
pub uninterp spec fn wgsl_type_names(s: Seq<char>) -> Seq<Option<Seq<char>>>;

/// The optional name of each global variable of the parsed module, in the
/// module's own order.
pub uninterp spec fn wgsl_global_variable_names(s: Seq<char>) -> Seq<Option<Seq<char>>>;

/// The optional name of each function of the parsed module, in the module's
/// own order.
pub uninterp spec fn wgsl_function_names(s: Seq<char>) -> Seq<Option<Seq<char>>>;

/// Relies on naga::front::wgsl::parse_str and naga::valid::Validator::validate,
/// the validator built on the spot with every flag and capability, so both
/// verdicts are functions of the source alone.  A validation failure keeps
/// the error itself, its span context stripped.  A parse failure is read
/// against the very source that was parsed, so no mismatched error and
/// source can meet.
#[verifier::external_body]
fn wgsl_parse_and_validate(source: &str) -> (r: Result<
    Result<(), naga::valid::ValidationError>,
    (String, Option<(usize, usize)>),
>)
    ensures
        (r matches Ok(_)) <==> wgsl_parse_ok(source@),
        r matches Ok(v) ==> ((v matches Ok(_)) <==> wgsl_valid_ok(source@)),
        r matches Err(e) ==> e.0@ == wgsl_parse_msg(source@) && e.1 == wgsl_parse_loc(source@),
{
    match naga::front::wgsl::parse_str(source) {
        Ok(m) => {
            let mut v = naga::valid::Validator::new(
                naga::valid::ValidationFlags::all(),
                naga::valid::Capabilities::all(),
            );
            Ok(v.validate(&m).map(|_| ()).map_err(|e| e.into_inner()))
        },
        Err(e) => {
            let loc = e.location(source).map(|l| (l.line_number as usize, l.line_position as usize));
            Err((e.emit_to_string(source), loc))
        },
    }
}

/// Relies on naga::front::wgsl::parse_str and on the parsed module's type,
/// global-variable and function arenas, projected to their optional names in
/// the module's own deterministic order; parsing and projection happen
/// together, so the lists are functions of the source alone.  A failure is
/// read against the parsed source, as in `wgsl_parse_and_validate`.
#[verifier::external_body]
fn wgsl_parse_names(source: &str) -> (r: Result<
    (Vec<Option<String>>, Vec<Option<String>>, Vec<Option<String>>),
    (String, Option<(usize, usize)>),
>)
    ensures
        (r matches Ok(_)) <==> wgsl_parse_ok(source@),
        r matches Ok(t) ==> t.0.deep_view() == wgsl_type_names(source@) && t.1.deep_view()
            == wgsl_global_variable_names(source@) && t.2.deep_view() == wgsl_function_names(
            source@,
        ),
        r matches Err(e) ==> e.0@ == wgsl_parse_msg(source@) && e.1 == wgsl_parse_loc(source@),
{
    match naga::front::wgsl::parse_str(source) {
        Ok(m) => Ok((
            m.types.iter().map(|(_, t)| t.name.clone()).collect(),
            m.global_variables.iter().map(|(_, v)| v.name.clone()).collect(),
            m.functions.iter().map(|(_, f)| f.name.clone()).collect(),
        )),
        Err(e) => {
            let loc = e.location(source).map(|l| (l.line_number as usize, l.line_position as usize));
            Err((e.emit_to_string(source), loc))
        },
    }
}

/// The error owed for a source naga's parser rejects: the rendered message,
/// the reported line translated through the map, the column kept.  An error
/// that carries no span keeps line zero and column zero, untranslated: with
/// no position there is nothing to map.
pub open spec fn parse_err_model(s: Seq<char>, map: Seq<MapEntry>) -> ErrModel {
    ErrModel::Parser {
        error: wgsl_parse_msg(s),
        line: match wgsl_parse_loc(s) {
            Some(lp) => map_line_total_spec(map, lp.0 as int),
            None => 0,
        },
        pos: match wgsl_parse_loc(s) {
            Some(lp) => lp.1 as int,
            None => 0,
        },
    }
}

/// The named entries of `s`, in order, the unnamed ones dropped.
pub open spec fn named_of(s: Seq<Option<Seq<char>>>) -> Seq<Seq<char>>
    decreases s.len(),
{
    if s.len() == 0 {
        Seq::empty()
    } else {
        let rest = named_of(s.drop_first());
        match s.first() {
            Some(n) => seq![n] + rest,
            None => rest,
        }
    }
}

/// Keeps the present names in order and drops the absent ones.
pub fn collect_names(names: Vec<Option<String>>) -> (r: Vec<String>)
    ensures
        r.deep_view() == named_of(names.deep_view()),
{
    let ghost orig = names.deep_view();
    let mut v = names;
    let mut r: Vec<String> = Vec::new();
    proof {
        assert(r.deep_view() + named_of(v.deep_view()) =~~= named_of(orig));
    }
    while v.len() > 0
        invariant
            named_of(orig) == r.deep_view() + named_of(v.deep_view()),
        decreases v.len(),
    {
        let ghost pre = v.deep_view();
        let ghost rpre = r.deep_view();
        let o = v.remove(0);
        proof {
            assert(v.deep_view() =~~= pre.drop_first());
            assert(o.deep_view() == pre.first());
        }
        match o {
            Some(s) => {
                r.push(s);
                proof {
                    assert(r.deep_view() =~~= rpre.push(s@));
                    assert(rpre.push(s@) + named_of(pre.drop_first()) =~~= rpre + (seq![s@]
                        + named_of(pre.drop_first())));
                }
            },
            None => {},
        }
    }
    proof {
        assert(named_of(v.deep_view()) =~~= Seq::<Seq<char>>::empty());
        assert(named_of(orig) =~~= r.deep_view());
    }
    r
}

/// The summary of a parsed shader: the names its module declares.
#[derive(Debug)]
pub struct WgslTree {
    pub types: Vec<String>,
    pub global_variables: Vec<String>,
    pub functions: Vec<String>,
}

impl Default for WgslTree {
    /// A summary with no names.
    fn default() -> (r: WgslTree)
        ensures
            r.types@ == Seq::<String>::empty(),
            r.global_variables@ == Seq::<String>::empty(),
            r.functions@ == Seq::<String>::empty(),
    {
        WgslTree { types: Vec::new(), global_variables: Vec::new(), functions: Vec::new() }
    }
}

/// The front end around naga: parses flattened WGSL and validates it.  Each
/// validation builds its validator on the spot, with every flag and
/// capability, so the verdict depends on the shader alone.
pub struct Naga {}

impl Naga {
    /// A front end whose validation checks everything naga can check.
    pub fn new() -> Naga {
        Naga {}
    }

    /// Parses the flattened shader and validates the module: success exactly
    /// when the source both parses and validates.  A source the parser
    /// rejects comes back as the parser's message with its line translated
    /// through the source map; one that parses but fails validation comes
    /// back as the validation failure, untranslated, since naga reports it
    /// without a buffer position.
    pub fn validate_wgsl(&mut self, shader: &str, src_map: &SourceMap) -> (r: Result<
        (),
        WgslError,
    >)
        ensures
            (r matches Ok(_)) <==> (wgsl_parse_ok(shader@) && wgsl_valid_ok(shader@)),
            !wgsl_parse_ok(shader@) ==> (r matches Err(e) && e@ == parse_err_model(
                shader@,
                src_map@,
            )),
            wgsl_parse_ok(shader@) && !wgsl_valid_ok(shader@) ==> (r matches Err(e) && e@
                matches ErrModel::Validation),
    {
        match wgsl_parse_and_validate(shader) {
            Ok(verdict) => match verdict {
                Ok(_) => Ok(()),
                Err(e) => Err(WgslError::ValidationErr(e)),
            },
            Err((msg, loc)) => Err(WgslError::from_parse_err(msg, loc, src_map)),
        }
    }

    /// Parses the flattened shader and lists the names of the module's
    /// types, global variables and functions, in the module's own order,
    /// unnamed entries dropped.  A source the parser rejects comes back as
    /// the parser's message with its line translated through the source map.
    pub fn get_wgsl_tree(&mut self, shader: &str, src_map: &SourceMap) -> (r: Result<
        WgslTree,
        WgslError,
    >)
        ensures
            (r matches Ok(_)) <==> wgsl_parse_ok(shader@),
            r matches Ok(t) ==> t.types.deep_view() == named_of(wgsl_type_names(shader@))
                && t.global_variables.deep_view() == named_of(
                wgsl_global_variable_names(shader@),
            ) && t.functions.deep_view() == named_of(wgsl_function_names(shader@)),
            !wgsl_parse_ok(shader@) ==> (r matches Err(e) && e@ == parse_err_model(
                shader@,
                src_map@,
            )),
    {
        let (type_names, global_names, function_names) = match wgsl_parse_names(shader) {
            Ok(t) => t,
            Err((msg, loc)) => {
                return Err(WgslError::from_parse_err(msg, loc, src_map));
            },
        };
        let types = collect_names(type_names);
        let global_variables = collect_names(global_names);
        let functions = collect_names(function_names);
        Ok(WgslTree { types, global_variables, functions })
    }
}

} // verus!
