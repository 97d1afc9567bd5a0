//! Rendering a parsed template: which modules it needs, how one placeholder's
//! output becomes a styled segment, and how the segments and the literal text
//! are put together.
use vstd::prelude::*;
use vstd::string::*;
use crate::error::PromptError;
use crate::style::{has_any_style, raw_codes, spec_parse_style, styled_text, AnsiStyle, ModuleStyle, Shell};
use crate::text::{chars_of, slice_eq_str};

verus! {

/// A placeholder of a template: the module it names, the module's format, the
/// style of the segment, and the text around the module's output.
pub struct Params {
    pub module: String,
    pub format: String,
    pub style: String,
    pub prefix: String,
    pub suffix: String,
}

/// A piece of a parsed template.
pub enum Token {
    Text(String),
    Placeholder(Params),
}

/// The capacity reserved for the output of a template of `template_len`
/// bytes.
pub fn estimate_output_size(template_len: usize) -> (r: usize)
    requires
        template_len + template_len / 2 + 128 <= usize::MAX,
    ensures
        r == template_len + template_len / 2 + 128,
{
    template_len + (template_len / 2) + 128
}

/// The number of placeholders among `tokens`.
pub open spec fn placeholder_count(tokens: Seq<Token>) -> nat
    decreases tokens.len(),
{
    if tokens.len() == 0 {
        0
    } else {
        placeholder_count(tokens.drop_last()) + if tokens.last() is Placeholder {
            1nat
        } else {
            0nat
        }
    }
}

/// The number of placeholders in a template.
pub fn count_placeholders(tokens: &Vec<Token>) -> (r: usize)
    ensures
        r == placeholder_count(tokens@),
{
    let mut n: usize = 0;
    let mut i: usize = 0;
    assert(tokens@.take(0) =~= Seq::<Token>::empty());
    while i < tokens.len()
        invariant
            i <= tokens@.len(),
            n == placeholder_count(tokens@.take(i as int)),
            n <= i,
        decreases tokens@.len() - i,
    {
        assert(tokens@.take(i + 1).drop_last() =~= tokens@.take(i as int));
        if let Token::Placeholder(_) = &tokens[i] {
            n = n + 1;
        }
        i = i + 1;
    }
    assert(tokens@.take(i as int) =~= tokens@);
    n
}

/// The modules a template can name.
#[derive(Debug, Clone, Copy, PartialEq, Eq, Structural)]
pub enum ModuleKind {
    Path,
    Git,
    Env,
    ExitOk,
    ExitFail,
    Rust,
    Node,
    Python,
    Go,
    Elixir,
    Deno,
    Bun,
    Time,
    Json,
}

/// The module a placeholder's module name denotes.
pub open spec fn module_kind_of(name: Seq<char>) -> Option<ModuleKind> {
    if name == "path"@ {
        Some(ModuleKind::Path)
    } else if name == "git"@ {
        Some(ModuleKind::Git)
    } else if name == "env"@ {
        Some(ModuleKind::Env)
    } else if name == "ok"@ {
        Some(ModuleKind::ExitOk)
    } else if name == "fail"@ {
        Some(ModuleKind::ExitFail)
    } else if name == "rust"@ {
        Some(ModuleKind::Rust)
    } else if name == "node"@ {
        Some(ModuleKind::Node)
    } else if name == "python"@ {
        Some(ModuleKind::Python)
    } else if name == "go"@ {
        Some(ModuleKind::Go)
    } else if name == "elixir"@ {
        Some(ModuleKind::Elixir)
    } else if name == "deno"@ {
        Some(ModuleKind::Deno)
    } else if name == "bun"@ {
        Some(ModuleKind::Bun)
    } else if name == "time"@ {
        Some(ModuleKind::Time)
    } else if name == "json"@ {
        Some(ModuleKind::Json)
    } else {
        None
    }
}

/// The module that `name` denotes, if any.
pub fn instantiate_module(name: &str) -> (r: Option<ModuleKind>)
    ensures
        r == module_kind_of(name@),
{
    let cs = chars_of(name);
    let n = cs.len();
    assert(cs@.subrange(0, n as int) =~= cs@);
    if slice_eq_str(&cs, 0, n, "path") {
        Some(ModuleKind::Path)
    } else if slice_eq_str(&cs, 0, n, "git") {
        Some(ModuleKind::Git)
    } else if slice_eq_str(&cs, 0, n, "env") {
        Some(ModuleKind::Env)
    } else if slice_eq_str(&cs, 0, n, "ok") {
        Some(ModuleKind::ExitOk)
    } else if slice_eq_str(&cs, 0, n, "fail") {
        Some(ModuleKind::ExitFail)
    } else if slice_eq_str(&cs, 0, n, "rust") {
        Some(ModuleKind::Rust)
    } else if slice_eq_str(&cs, 0, n, "node") {
        Some(ModuleKind::Node)
    } else if slice_eq_str(&cs, 0, n, "python") {
        Some(ModuleKind::Python)
    } else if slice_eq_str(&cs, 0, n, "go") {
        Some(ModuleKind::Go)
    } else if slice_eq_str(&cs, 0, n, "elixir") {
        Some(ModuleKind::Elixir)
    } else if slice_eq_str(&cs, 0, n, "deno") {
        Some(ModuleKind::Deno)
    } else if slice_eq_str(&cs, 0, n, "bun") {
        Some(ModuleKind::Bun)
    } else if slice_eq_str(&cs, 0, n, "time") {
        Some(ModuleKind::Time)
    } else if slice_eq_str(&cs, 0, n, "json") {
        Some(ModuleKind::Json)
    } else {
        None
    }
}

/// Whether `name` is registered in `registry`.
pub open spec fn registered(registry: Seq<(Seq<char>, ModuleKind)>, name: Seq<char>) -> bool {
    exists|k: int| 0 <= k < registry.len() && (#[trigger] registry[k]).0 == name
}

/// The registry that `tokens` need, each module once in order of first use,
/// and the number of placeholders; or the first module name that denotes no
/// module.
pub open spec fn spec_build_registry(tokens: Seq<Token>) -> Result<
    (Seq<(Seq<char>, ModuleKind)>, nat),
    Seq<char>,
>
    decreases tokens.len(),
{
    if tokens.len() == 0 {
        Ok((Seq::empty(), 0))
    } else {
        match spec_build_registry(tokens.drop_last()) {
            Err(e) => Err(e),
            Ok((registry, count)) => match tokens.last() {
                Token::Text(_) => Ok((registry, count)),
                Token::Placeholder(p) => if registered(registry, p.module@) {
                    Ok((registry, count + 1))
                } else {
                    match module_kind_of(p.module@) {
                        Some(kind) => Ok((registry.push((p.module@, kind)), count + 1)),
                        None => Err(p.module@),
                    }
                },
            },
        }
    }
}

/// The view of a registry.
pub open spec fn registry_view(r: Seq<(String, ModuleKind)>) -> Seq<(Seq<char>, ModuleKind)> {
    r.map_values(|e: (String, ModuleKind)| (e.0@, e.1))
}

/// Whether the module that `t` names, if it is a placeholder, is registered.
pub open spec fn module_registered(reg: Seq<(Seq<char>, ModuleKind)>, t: Token) -> bool {
    match t {
        Token::Placeholder(p) => registered(reg, p.module@),
        Token::Text(_) => true,
    }
}

/// Whether the placeholder `t` names the module `name`.
pub open spec fn names_module(t: Token, name: Seq<char>) -> bool {
    t matches Token::Placeholder(p) && p.module@ == name
}

/// A successful registry lists each module that the template names exactly
/// once, with the kind its name denotes, and nothing else; the count is the
/// number of placeholders.
pub proof fn lemma_registry_lists_each_module_once(tokens: Seq<Token>)
    ensures
        spec_build_registry(tokens) matches Ok((reg, count)) ==> {
            &&& count == placeholder_count(tokens)
            &&& forall|i: int, j: int|
                0 <= i < j < reg.len() ==> (#[trigger] reg[i]).0 != (#[trigger] reg[j]).0
            &&& forall|k: int| 0 <= k < tokens.len() ==> module_registered(reg, #[trigger] tokens[k])
            &&& forall|i: int|
                0 <= i < reg.len() ==> module_kind_of((#[trigger] reg[i]).0) == Some(reg[i].1)
                    && exists|k: int| 0 <= k < tokens.len() && names_module(#[trigger] tokens[k], reg[i].0)
        },
    decreases tokens.len(),
{
    if tokens.len() > 0 {
        let init = tokens.drop_last();
        lemma_registry_lists_each_module_once(init);
        assert forall|k: int| 0 <= k < init.len() implies #[trigger] init[k] == tokens[k] by {}
        let last = tokens.len() - 1;
        assert(tokens[last] == tokens.last());
        if let Ok((reg0, count0)) = spec_build_registry(init) {
            if let Ok((reg, count)) = spec_build_registry(tokens) {
                assert forall|k: int| 0 <= k < tokens.len() implies module_registered(
                    reg,
                    #[trigger] tokens[k],
                ) by {
                    if let Token::Placeholder(p) = tokens[k] {
                        if k < last {
                            assert(init[k] == tokens[k]);
                            assert(registered(reg0, p.module@));
                            let i = choose|i: int| 0 <= i < reg0.len() && (#[trigger] reg0[i]).0 == p.module@;
                            assert(reg[i] == reg0[i]);
                        } else if !registered(reg0, p.module@) {
                            assert(reg[reg0.len() as int].0 == p.module@);
                        } else {
                            assert(reg == reg0);
                        }
                    }
                }
                assert forall|i: int|
                    0 <= i < reg.len() implies module_kind_of((#[trigger] reg[i]).0) == Some(reg[i].1)
                        && exists|k: int| 0 <= k < tokens.len() && names_module(#[trigger] tokens[k], reg[i].0) by {
                    if i < reg0.len() {
                        assert(reg[i] == reg0[i]);
                        let k = choose|k: int| 0 <= k < init.len() && names_module(#[trigger] init[k], reg0[i].0);
                        assert(names_module(tokens[k], reg[i].0));
                    } else {
                        assert(names_module(tokens[last], reg[i].0));
                    }
                }
            }
        }
    }
}

/// Whether `t`, if it is a placeholder, names a module that exists.
pub open spec fn names_known_module(t: Token) -> bool {
    match t {
        Token::Placeholder(p) => module_kind_of(p.module@) is Some,
        Token::Text(_) => true,
    }
}

/// Building the registry succeeds exactly when every placeholder names a
/// module that exists; otherwise its error names the first placeholder, in
/// template order, whose module does not exist.
pub proof fn lemma_registry_error_is_first_unknown(tokens: Seq<Token>)
    ensures
        (spec_build_registry(tokens) is Ok) <==> forall|k: int|
            0 <= k < tokens.len() ==> names_known_module(#[trigger] tokens[k]),
        spec_build_registry(tokens) matches Err(name) ==> exists|k: int|
            0 <= k < tokens.len() && names_module(#[trigger] tokens[k], name) && module_kind_of(name)
                is None && forall|j: int| 0 <= j < k ==> names_known_module(#[trigger] tokens[j]),
    decreases tokens.len(),
{
    if tokens.len() > 0 {
        let init = tokens.drop_last();
        let last = tokens.len() - 1;
        lemma_registry_error_is_first_unknown(init);
        lemma_registry_lists_each_module_once(init);
        assert forall|k: int| 0 <= k < init.len() implies #[trigger] init[k] == tokens[k] by {}
        assert(tokens[last] == tokens.last());
        match spec_build_registry(init) {
            Err(name) => {
                let k = choose|k: int|
                    0 <= k < init.len() && names_module(#[trigger] init[k], name) && module_kind_of(name)
                        is None && forall|j: int| 0 <= j < k ==> names_known_module(#[trigger] init[j]);
                assert(names_module(tokens[k], name));
                assert forall|j: int| 0 <= j < k implies names_known_module(#[trigger] tokens[j]) by {
                    assert(names_known_module(init[j]));
                }
                let k2 = choose|k2: int| 0 <= k2 < init.len() && !names_known_module(#[trigger] init[k2]);
                assert(!names_known_module(tokens[k2]));
            },
            Ok((reg, count)) => {
                assert forall|k: int| 0 <= k < last implies names_known_module(#[trigger] tokens[k]) by {
                    assert(names_known_module(init[k]));
                }
                if let Token::Placeholder(p) = tokens.last() {
                    if registered(reg, p.module@) {
                        let i = choose|i: int| 0 <= i < reg.len() && (#[trigger] reg[i]).0 == p.module@;
                        assert(module_kind_of(reg[i].0) == Some(reg[i].1));
                    }
                    if module_kind_of(p.module@) is None {
                        assert(names_module(tokens[last], p.module@));
                        assert(!names_known_module(tokens[last]));
                    }
                }
            },
        }
    }
}

proof fn lemma_registry_settled(ts: Seq<Token>, i: int)
    requires
        0 <= i <= ts.len(),
        spec_build_registry(ts.take(i)) is Err,
    ensures
        spec_build_registry(ts) == spec_build_registry(ts.take(i)),
    decreases ts.len(),
{
    if i < ts.len() {
        assert(ts.drop_last().take(i) =~= ts.take(i));
        lemma_registry_settled(ts.drop_last(), i);
    } else {
        assert(ts.take(i) =~= ts);
    }
}

fn find_registered(registry: &Vec<(String, ModuleKind)>, name: &String) -> (r: bool)
    ensures
        r == registered(registry_view(registry@), name@),
{
    let mut i: usize = 0;
    while i < registry.len()
        invariant
            i <= registry@.len(),
            forall|k: int| 0 <= k < i ==> registry@[k].0@ != name@,
        decreases registry@.len() - i,
    {
        if registry[i].0 == *name {
            assert(registry_view(registry@)[i as int].0 == name@);
            return true;
        }
        i = i + 1;
    }
    proof {
        if registered(registry_view(registry@), name@) {
            let k = choose|k: int|
                0 <= k < registry@.len() && (#[trigger] registry_view(registry@)[k]).0 == name@;
            assert(registry_view(registry@)[k].0 == registry@[k].0@);
        }
    }
    false
}

/// The modules a template needs, each once in order of first use, with the
/// number of placeholders; an unknown module name is an error.
pub fn build_registry(tokens: &Vec<Token>) -> (r: Result<(Vec<(String, ModuleKind)>, usize), PromptError>)
    ensures
        match r {
            Ok((registry, count)) => spec_build_registry(tokens@) == Ok::<
                (Seq<(Seq<char>, ModuleKind)>, nat),
                Seq<char>,
            >((registry_view(registry@), count as nat)),
            Err(e) => spec_build_registry(tokens@) matches Err(name) && e matches PromptError::UnknownModule(
                m,
            ) && m@ == name,
        },
{
    let mut registry: Vec<(String, ModuleKind)> = Vec::new();
    let mut count: usize = 0;
    let mut i: usize = 0;
    assert(tokens@.take(0) =~= Seq::<Token>::empty());
    assert(registry_view(registry@) =~= Seq::<(Seq<char>, ModuleKind)>::empty());
    while i < tokens.len()
        invariant
            i <= tokens@.len(),
            count <= i,
            spec_build_registry(tokens@.take(i as int)) == Ok::<
                (Seq<(Seq<char>, ModuleKind)>, nat),
                Seq<char>,
            >((registry_view(registry@), count as nat)),
        decreases tokens@.len() - i,
    {
        assert(tokens@.take(i + 1).drop_last() =~= tokens@.take(i as int));
        assert(tokens@.take(i + 1).last() == tokens@[i as int]);
        if let Token::Placeholder(params) = &tokens[i] {
            count = count + 1;
            if !find_registered(&registry, &params.module) {
                match instantiate_module(params.module.as_str()) {
                    Some(kind) => {
                        let ghost before = registry@;
                        registry.push((params.module.clone(), kind));
                        assert(registry_view(registry@) =~= registry_view(before).push(
                            (params.module@, kind),
                        ));
                    },
                    None => {
                        proof {
                            lemma_registry_settled(tokens@, i + 1);
                        }
                        return Err(PromptError::UnknownModule(params.module.clone()));
                    },
                }
            }
        }
        i = i + 1;
    }
    assert(tokens@.take(i as int) =~= tokens@);
    Ok((registry, count))
}

/// The placeholder's segment: the prefix, the module's text and the suffix.
pub open spec fn segment_text(params: Params, text: Seq<char>) -> Seq<char> {
    params.prefix@ + text + params.suffix@
}

/// Whether the placeholder's segment goes through its style: the module
/// rendered something, the segment is not empty, a style is given and colour is
/// not disabled.
pub open spec fn styles_segment(params: Params, rendered: Option<String>, no_color: bool) -> bool {
    match rendered {
        Some(t) => !(t@.len() == 0 && params.prefix@.len() == 0 && params.suffix@.len() == 0)
            && params.style@.len() > 0 && !no_color,
        None => false,
    }
}

/// The segment a placeholder renders to, given what its module rendered;
/// `Err` carries the style's parse error.
pub open spec fn spec_render_placeholder(
    params: Params,
    rendered: Option<String>,
    no_color: bool,
    shell: Shell,
) -> Result<Option<Seq<char>>, Seq<char>> {
    match rendered {
        None => Ok(None),
        Some(t) => if t@.len() == 0 && params.prefix@.len() == 0 && params.suffix@.len() == 0 {
            Ok(None)
        } else if params.style@.len() == 0 || no_color {
            Ok(Some(segment_text(params, t@)))
        } else {
            match spec_parse_style(params.style@) {
                Some(Ok(st)) => Ok(Some(styled_text(st, segment_text(params, t@), shell))),
                Some(Err(e)) => Err(e),
                None => Err(Seq::empty()),
            }
        },
    }
}

/// The segment for a placeholder whose module rendered `rendered`: nothing
/// when the module rendered nothing or when text, prefix and suffix are all
/// empty; otherwise prefix, text and suffix, styled unless no style is given
/// or colour is disabled.
pub fn render_placeholder(
    params: &Params,
    rendered: Option<String>,
    no_color: bool,
    shell: Shell,
) -> (r: Result<Option<String>, PromptError>)
    requires
        styles_segment(*params, rendered, no_color) ==> spec_parse_style(params.style@) is Some,
    ensures
        match r {
            Ok(Some(s)) => spec_render_placeholder(*params, rendered, no_color, shell) == Ok::<
                Option<Seq<char>>,
                Seq<char>,
            >(Some(s@)),
            Ok(None) => spec_render_placeholder(*params, rendered, no_color, shell) == Ok::<
                Option<Seq<char>>,
                Seq<char>,
            >(None),
            Err(PromptError::StyleError { module, error }) => module@ == params.module@
                && spec_render_placeholder(*params, rendered, no_color, shell) == Err::<
                Option<Seq<char>>,
                Seq<char>,
            >(error@),
            Err(_) => false,
        },
{
    let text = match rendered {
        Some(t) => t,
        None => {
            return Ok(None);
        },
    };
    if text.as_str().is_empty() && params.prefix.as_str().is_empty()
        && params.suffix.as_str().is_empty() {
        return Ok(None);
    }
    let mut segment = String::new();
    segment.append(params.prefix.as_str());
    segment.append(text.as_str());
    segment.append(params.suffix.as_str());
    assert(segment@ =~= segment_text(*params, text@));
    if params.style.as_str().is_empty() || no_color {
        return Ok(Some(segment));
    }
    match AnsiStyle::parse(params.style.as_str()) {
        Ok(style) => Ok(Some(style.apply_with_shell(segment.as_str(), shell))),
        Err(error) => Err(PromptError::StyleError { module: params.module.clone(), error }),
    }
}

/// The text of a rendered segment, if any.
pub open spec fn segment_view(s: Option<String>) -> Option<Seq<char>> {
    match s {
        Some(t) => Some(t@),
        None => None,
    }
}

/// The texts of rendered segments.
pub open spec fn segment_views(segments: Seq<Option<String>>) -> Seq<Option<Seq<char>>> {
    segments.map_values(|s: Option<String>| segment_view(s))
}

/// The characters a segment contributes: its text, or nothing.
pub open spec fn segment_chars(s: Option<Seq<char>>) -> Seq<char> {
    match s {
        Some(t) => t,
        None => Seq::empty(),
    }
}

/// The rendered template: the literal text as it is, and in place of the
/// `k`-th placeholder the `k`-th segment.
pub open spec fn assembled(tokens: Seq<Token>, segments: Seq<Option<Seq<char>>>) -> Seq<char>
    decreases tokens.len(),
{
    if tokens.len() == 0 {
        Seq::empty()
    } else {
        match tokens.last() {
            Token::Text(t) => assembled(tokens.drop_last(), segments) + t@,
            Token::Placeholder(_) => assembled(tokens.drop_last(), segments.drop_last())
                + segment_chars(segments.last()),
        }
    }
}

/// Puts the template together from its literal text and the segments of its
/// placeholders, in order.
pub fn assemble(tokens: &Vec<Token>, segments: &Vec<Option<String>>) -> (r: String)
    requires
        segments@.len() == placeholder_count(tokens@),
    ensures
        r@ == assembled(tokens@, segment_views(segments@)),
{
    let mut output = String::new();
    let ghost sv = segment_views(segments@);
    let m = segments.len();
    let mut i: usize = 0;
    let mut k: usize = 0;
    assert(tokens@.take(0) =~= Seq::<Token>::empty());
    while i < tokens.len()
        invariant
            i <= tokens@.len(),
            segments@.len() == placeholder_count(tokens@),
            sv == segment_views(segments@),
            m == segments@.len(),
            k == placeholder_count(tokens@.take(i as int)),
            k <= segments@.len(),
            output@ == assembled(tokens@.take(i as int), sv.take(k as int)),
        decreases tokens@.len() - i,
    {
        assert(tokens@.take(i + 1).drop_last() =~= tokens@.take(i as int));
        assert(tokens@.take(i + 1).last() == tokens@[i as int]);
        proof {
            lemma_count_prefix(tokens@, i + 1);
        }
        match &tokens[i] {
            Token::Text(t) => {
                output.append(t.as_str());
            },
            Token::Placeholder(_) => {
                assert(placeholder_count(tokens@.take(i + 1)) == k + 1);
                assert(k + 1 <= segments@.len());
                assert(sv.take(k + 1).drop_last() =~= sv.take(k as int));
                assert(sv.take(k + 1).last() == segment_view(segments@[k as int]));
                match &segments[k] {
                    Some(s) => {
                        output.append(s.as_str());
                    },
                    None => {
                        assert(output@ =~= output@ + Seq::<char>::empty());
                    },
                }
                k = k + 1;
            },
        }
        i = i + 1;
    }
    assert(tokens@.take(i as int) =~= tokens@);
    assert(sv.take(k as int) =~= sv);
    output
}

/// The placeholders among `tokens`, in order.
pub open spec fn placeholders(tokens: Seq<Token>) -> Seq<Params>
    decreases tokens.len(),
{
    if tokens.len() == 0 {
        Seq::empty()
    } else {
        match tokens.last() {
            Token::Placeholder(p) => placeholders(tokens.drop_last()).push(p),
            Token::Text(_) => placeholders(tokens.drop_last()),
        }
    }
}

/// The segments of the placeholders `ps` whose modules gave `outputs`, or the
/// index of the first placeholder that fails: its module gave an error, or its
/// style does not parse.
pub open spec fn rendered_segments(
    ps: Seq<Params>,
    outputs: Seq<Result<Option<String>, PromptError>>,
    no_color: bool,
    shell: Shell,
) -> Result<Seq<Option<Seq<char>>>, int>
    decreases ps.len(),
{
    if ps.len() == 0 {
        Ok(Seq::empty())
    } else {
        match rendered_segments(ps.drop_last(), outputs.drop_last(), no_color, shell) {
            Err(k) => Err(k),
            Ok(segs) => match outputs.last() {
                Err(_) => Err(ps.len() - 1),
                Ok(rendered) => match spec_render_placeholder(ps.last(), rendered, no_color, shell) {
                    Ok(seg) => Ok(segs.push(seg)),
                    Err(_) => Err(ps.len() - 1),
                },
            },
        }
    }
}

/// Whether no placeholder's segment goes through a style whose parse aborts.
pub open spec fn styles_parse(
    ps: Seq<Params>,
    outputs: Seq<Result<Option<String>, PromptError>>,
    no_color: bool,
) -> bool {
    forall|k: int| 0 <= k < outputs.len() ==> !style_aborts(ps[k], #[trigger] outputs[k], no_color)
}

/// Whether `placeholder`'s segment, given what its module rendered, goes
/// through a style whose parse aborts.
pub open spec fn style_aborts(
    placeholder: Params,
    output: Result<Option<String>, PromptError>,
    no_color: bool,
) -> bool {
    output matches Ok(rendered) && styles_segment(placeholder, rendered, no_color)
        && spec_parse_style(placeholder.style@) is None
}

/// Whether some placeholder's segment goes through a style whose parse
/// aborts, given what the placeholders' modules gave.
pub fn style_parse_aborts(
    tokens: &Vec<Token>,
    outputs: &Vec<Result<Option<String>, PromptError>>,
    no_color: bool,
) -> (r: bool)
    requires
        outputs@.len() == placeholder_count(tokens@),
    ensures
        r == !styles_parse(placeholders(tokens@), outputs@, no_color),
{
    let ghost ps = placeholders(tokens@);
    let m = outputs.len();
    let mut i: usize = 0;
    let mut k: usize = 0;
    proof {
        lemma_placeholders_len(tokens@);
    }
    assert(tokens@.take(0) =~= Seq::<Token>::empty());
    while i < tokens.len()
        invariant
            i <= tokens@.len(),
            ps == placeholders(tokens@),
            ps.len() == placeholder_count(tokens@),
            outputs@.len() == ps.len(),
            m == outputs@.len(),
            k == placeholder_count(tokens@.take(i as int)),
            k <= ps.len(),
            placeholders(tokens@.take(i as int)) == ps.take(k as int),
            forall|j: int| 0 <= j < k ==> !style_aborts(ps[j], #[trigger] outputs@[j], no_color),
        decreases tokens@.len() - i,
    {
        proof {
            lemma_token_step(tokens@, i as int);
        }
        if let Token::Placeholder(params) = &tokens[i] {
            assert(ps.take(k + 1)[k as int] == ps[k as int]);
            assert(ps[k as int] == *params);
            let aborts = match &outputs[k] {
                Ok(rendered) => {
                    let shown = match rendered {
                        Some(t) => !(t.as_str().is_empty() && params.prefix.as_str().is_empty()
                            && params.suffix.as_str().is_empty()),
                        None => false,
                    };
                    shown && !params.style.as_str().is_empty() && !no_color
                        && AnsiStyle::parse_aborts(params.style.as_str())
                },
                Err(_) => false,
            };
            assert(aborts == style_aborts(ps[k as int], outputs@[k as int], no_color));
            if aborts {
                return true;
            }
            k = k + 1;
        }
        i = i + 1;
    }
    assert(tokens@.take(i as int) =~= tokens@);
    assert(ps.take(k as int) =~= ps);
    false
}

/// Renders a template whose placeholders' modules gave `outputs`, one per
/// placeholder in order: the first failing placeholder's error (its module's
/// error, or the error of its style), or the literal text with the segments in
/// place of the placeholders.
pub fn render_outputs(
    tokens: &Vec<Token>,
    outputs: &Vec<Result<Option<String>, PromptError>>,
    no_color: bool,
    shell: Shell,
) -> (r: Result<String, PromptError>)
    requires
        outputs@.len() == placeholder_count(tokens@),
        styles_parse(placeholders(tokens@), outputs@, no_color),
    ensures
        match r {
            Ok(s) => rendered_segments(placeholders(tokens@), outputs@, no_color, shell) matches Ok(
                segs,
            ) && s@ == assembled(tokens@, segs),
            Err(e) => rendered_segments(placeholders(tokens@), outputs@, no_color, shell) matches Err(
                k,
            ) && 0 <= k < outputs@.len() && match outputs@[k] {
                Err(e0) => e == e0,
                Ok(rendered) => e matches PromptError::StyleError { module, error } && module@
                    == placeholders(tokens@)[k].module@ && spec_render_placeholder(
                    placeholders(tokens@)[k],
                    rendered,
                    no_color,
                    shell,
                ) == Err::<Option<Seq<char>>, Seq<char>>(error@),
            },
        },
{
    let ghost ps = placeholders(tokens@);
    let mut segments: Vec<Option<String>> = Vec::new();
    let m = outputs.len();
    let mut i: usize = 0;
    let mut k: usize = 0;
    proof {
        lemma_placeholders_len(tokens@);
    }
    assert(tokens@.take(0) =~= Seq::<Token>::empty());
    assert(ps.take(0) =~= Seq::<Params>::empty());
    assert(outputs@.take(0) =~= Seq::<Result<Option<String>, PromptError>>::empty());
    assert(segment_views(segments@) =~= Seq::<Option<Seq<char>>>::empty());
    while i < tokens.len()
        invariant
            i <= tokens@.len(),
            ps == placeholders(tokens@),
            ps.len() == placeholder_count(tokens@),
            outputs@.len() == ps.len(),
            m == outputs@.len(),
            styles_parse(ps, outputs@, no_color),
            k == placeholder_count(tokens@.take(i as int)),
            k <= ps.len(),
            segments@.len() == k,
            placeholders(tokens@.take(i as int)) == ps.take(k as int),
            rendered_segments(ps.take(k as int), outputs@.take(k as int), no_color, shell) == Ok::<
                Seq<Option<Seq<char>>>,
                int,
            >(segment_views(segments@)),
        decreases tokens@.len() - i,
    {
        proof {
            lemma_token_step(tokens@, i as int);
        }
        if let Token::Placeholder(params) = &tokens[i] {
            assert(ps.take(k + 1)[k as int] == ps[k as int]);
            assert(ps[k as int] == *params);
            proof {
                lemma_rendered_step(ps, outputs@, no_color, shell, k as int);
            }
            let rendered = match &outputs[k] {
                Err(e) => {
                    proof {
                        lemma_rendered_settled(ps, outputs@, no_color, shell, k + 1);
                    }
                    return Err(e.clone());
                },
                Ok(Some(t)) => Some(t.clone()),
                Ok(None) => None,
            };
            assert(outputs@[k as int] == Ok::<Option<String>, PromptError>(rendered));
            match render_placeholder(params, rendered, no_color, shell) {
                Ok(seg) => {
                    let ghost before = segments@;
                    segments.push(seg);
                    assert(segment_views(segments@) =~= segment_views(before).push(
                        segment_view(seg),
                    ));
                },
                Err(e) => {
                    proof {
                        lemma_rendered_settled(ps, outputs@, no_color, shell, k + 1);
                    }
                    return Err(e);
                },
            }
            k = k + 1;
        }
        i = i + 1;
    }
    assert(tokens@.take(i as int) =~= tokens@);
    assert(ps.take(k as int) =~= ps);
    assert(outputs@.take(k as int) =~= outputs@);
    Ok(assemble(tokens, &segments))
}

proof fn lemma_token_step(ts: Seq<Token>, i: int)
    requires
        0 <= i < ts.len(),
    ensures
        ts[i] is Text ==> placeholder_count(ts.take(i + 1)) == placeholder_count(ts.take(i))
            && placeholders(ts.take(i + 1)) == placeholders(ts.take(i)),
        ts[i] matches Token::Placeholder(p) ==> placeholder_count(ts.take(i + 1))
            == placeholder_count(ts.take(i)) + 1 && placeholders(ts.take(i + 1)) == placeholders(
            ts.take(i),
        ).push(p),
        placeholder_count(ts.take(i + 1)) <= placeholder_count(ts),
        placeholders(ts.take(i + 1)) == placeholders(ts).take(
            placeholder_count(ts.take(i + 1)) as int,
        ),
{
    assert(ts.take(i + 1).drop_last() =~= ts.take(i));
    assert(ts.take(i + 1).last() == ts[i]);
    lemma_count_prefix(ts, i + 1);
    lemma_placeholders_prefix(ts, i + 1);
}

proof fn lemma_rendered_step(
    ps: Seq<Params>,
    outputs: Seq<Result<Option<String>, PromptError>>,
    no_color: bool,
    shell: Shell,
    k: int,
)
    requires
        0 <= k < ps.len(),
        ps.len() == outputs.len(),
    ensures
        rendered_segments(ps.take(k + 1), outputs.take(k + 1), no_color, shell) == match rendered_segments(
            ps.take(k),
            outputs.take(k),
            no_color,
            shell,
        ) {
            Err(j) => Err(j),
            Ok(segs) => match outputs[k] {
                Err(_) => Err(k),
                Ok(rendered) => match spec_render_placeholder(ps[k], rendered, no_color, shell) {
                    Ok(seg) => Ok(segs.push(seg)),
                    Err(_) => Err(k),
                },
            },
        },
{
    assert(ps.take(k + 1).drop_last() =~= ps.take(k));
    assert(outputs.take(k + 1).drop_last() =~= outputs.take(k));
    assert(ps.take(k + 1).last() == ps[k]);
    assert(outputs.take(k + 1).last() == outputs[k]);
}

proof fn lemma_placeholders_len(ts: Seq<Token>)
    ensures
        placeholders(ts).len() == placeholder_count(ts),
    decreases ts.len(),
{
    if ts.len() > 0 {
        lemma_placeholders_len(ts.drop_last());
    }
}

proof fn lemma_placeholders_prefix(ts: Seq<Token>, i: int)
    requires
        0 <= i <= ts.len(),
    ensures
        placeholders(ts.take(i)) == placeholders(ts).take(placeholder_count(ts.take(i)) as int),
    decreases ts.len(),
{
    lemma_placeholders_len(ts);
    lemma_placeholders_len(ts.take(i));
    if i < ts.len() {
        assert(ts.drop_last().take(i) =~= ts.take(i));
        lemma_placeholders_prefix(ts.drop_last(), i);
        lemma_placeholders_len(ts.drop_last());
        lemma_count_prefix(ts.drop_last(), i);
        let n = placeholder_count(ts.take(i)) as int;
        match ts.last() {
            Token::Placeholder(p) => {
                assert(placeholders(ts).take(n) =~= placeholders(ts.drop_last()).take(n));
            },
            Token::Text(_) => {},
        }
    } else {
        assert(ts.take(i) =~= ts);
        assert(placeholders(ts).take(placeholders(ts).len() as int) =~= placeholders(ts));
    }
}

proof fn lemma_rendered_settled(
    ps: Seq<Params>,
    outputs: Seq<Result<Option<String>, PromptError>>,
    no_color: bool,
    shell: Shell,
    j: int,
)
    requires
        0 <= j <= ps.len(),
        ps.len() == outputs.len(),
        rendered_segments(ps.take(j), outputs.take(j), no_color, shell) is Err,
    ensures
        rendered_segments(ps, outputs, no_color, shell) == rendered_segments(
            ps.take(j),
            outputs.take(j),
            no_color,
            shell,
        ),
    decreases ps.len(),
{
    if j < ps.len() {
        assert(ps.drop_last().take(j) =~= ps.take(j));
        assert(outputs.drop_last().take(j) =~= outputs.take(j));
        lemma_rendered_settled(ps.drop_last(), outputs.drop_last(), no_color, shell, j);
    } else {
        assert(ps.take(j) =~= ps);
        assert(outputs.take(j) =~= outputs);
    }
}

proof fn lemma_count_prefix(ts: Seq<Token>, i: int)
    requires
        0 <= i <= ts.len(),
    ensures
        placeholder_count(ts.take(i)) <= placeholder_count(ts),
    decreases ts.len(),
{
    if i < ts.len() {
        assert(ts.drop_last().take(i) =~= ts.take(i));
        lemma_count_prefix(ts.drop_last(), i);
    } else {
        assert(ts.take(i) =~= ts);
    }
}


/// The markers that a shell puts around a non-printing sequence in its
/// prompt: `%{`/`%}` for zsh, `\x01`/`\x02` for bash, none for a plain shell.
pub open spec fn prompt_markers(shell: Shell) -> (Seq<char>, Seq<char>) {
    match shell {
        Shell::Zsh => ("%{"@, "%}"@),
        Shell::Bash => ("\x01"@, "\x02"@),
        Shell::Plain => (Seq::empty(), Seq::empty()),
    }
}

/// With colour on and a style that sets something, a placeholder's segment is
/// the style's codes, the prefix, the module's text, the suffix and the reset
/// code, each escape sequence wrapped in the markers of the shell that was
/// asked for.
pub proof fn lemma_styled_segment_wrapped_for_shell(
    params: Params,
    text: String,
    shell: Shell,
    st: AnsiStyle,
)
    requires
        !(text@.len() == 0 && params.prefix@.len() == 0 && params.suffix@.len() == 0),
        params.style@.len() > 0,
        spec_parse_style(params.style@) == Some(Ok::<AnsiStyle, Seq<char>>(st)),
        has_any_style(st),
    ensures
        spec_render_placeholder(params, Some(text), false, shell) == Ok::<
            Option<Seq<char>>,
            Seq<char>,
        >(
            Some(
                prompt_markers(shell).0 + raw_codes(st) + prompt_markers(shell).1 + params.prefix@
                    + text@ + params.suffix@ + prompt_markers(shell).0 + "\x1b[0m"@
                    + prompt_markers(shell).1,
            ),
        ),
{
    let seg = params.prefix@ + text@ + params.suffix@;
    let (open, close) = prompt_markers(shell);
    assert(styled_text(st, seg, shell) =~= open + raw_codes(st) + close + params.prefix@ + text@
        + params.suffix@ + open + "\x1b[0m"@ + close);
}

/// A placeholder's segment without style: nothing when its module rendered
/// nothing or when text, prefix and suffix are all empty; otherwise prefix,
/// text and suffix.
pub open spec fn bare_segment(params: Params, rendered: Option<String>) -> Option<Seq<char>> {
    match rendered {
        None => None,
        Some(t) => if t@.len() == 0 && params.prefix@.len() == 0 && params.suffix@.len() == 0 {
            None
        } else {
            Some(segment_text(params, t@))
        },
    }
}

/// The bare segments of placeholders whose modules all succeeded.
pub open spec fn bare_segments(
    ps: Seq<Params>,
    outputs: Seq<Result<Option<String>, PromptError>>,
) -> Seq<Option<Seq<char>>> {
    Seq::new(ps.len(), |k: int| bare_segment(ps[k], outputs[k]->Ok_0))
}

/// With colour disabled, a template whose modules all succeed renders, and
/// each placeholder becomes its bare segment: no style is parsed or applied.
pub proof fn lemma_no_color_template(
    ps: Seq<Params>,
    outputs: Seq<Result<Option<String>, PromptError>>,
    shell: Shell,
)
    requires
        ps.len() == outputs.len(),
        forall|k: int| 0 <= k < outputs.len() ==> (#[trigger] outputs[k]) is Ok,
    ensures
        styles_parse(ps, outputs, true),
        rendered_segments(ps, outputs, true, shell) == Ok::<Seq<Option<Seq<char>>>, int>(
            bare_segments(ps, outputs),
        ),
    decreases ps.len(),
{
    if ps.len() > 0 {
        let n = ps.len() - 1;
        assert forall|k: int| 0 <= k < n implies (#[trigger] outputs.drop_last()[k]) is Ok by {
            assert(outputs.drop_last()[k] == outputs[k]);
        }
        lemma_no_color_template(ps.drop_last(), outputs.drop_last(), shell);
        assert(outputs[n] is Ok);
        assert(outputs.last() == outputs[n]);
        assert(bare_segments(ps, outputs) =~= bare_segments(ps.drop_last(), outputs.drop_last()).push(
            bare_segment(ps.last(), outputs.last()->Ok_0),
        ));
    } else {
        assert(bare_segments(ps, outputs) =~= Seq::<Option<Seq<char>>>::empty());
    }
}

/// With colour disabled a placeholder renders to its bare segment, whatever
/// its style and the shell.
pub proof fn lemma_no_color_renders_bare_segment(params: Params, text: String, shell: Shell)
    requires
        !(text@.len() == 0 && params.prefix@.len() == 0 && params.suffix@.len() == 0),
    ensures
        spec_render_placeholder(params, Some(text), true, shell) == Ok::<
            Option<Seq<char>>,
            Seq<char>,
        >(Some(params.prefix@ + text@ + params.suffix@)),
{
}

/// A template without placeholders renders to its literal text.
pub proof fn lemma_text_only_template(tokens: Seq<Token>, segments: Seq<Option<Seq<char>>>)
    requires
        forall|k: int| 0 <= k < tokens.len() ==> tokens[k] is Text,
    ensures
        placeholder_count(tokens) == 0,
        assembled(tokens, segments) == assembled(tokens, Seq::empty()),
    decreases tokens.len(),
{
    if tokens.len() > 0 {
        assert forall|k: int| 0 <= k < tokens.drop_last().len() implies tokens.drop_last()[k] is Text by {
            assert(tokens.drop_last()[k] == tokens[k]);
        }
        lemma_text_only_template(tokens.drop_last(), segments);
        assert(tokens.last() is Text);
    }
}

} // verus!
