use vstd::prelude::*;

use crate::graph::{first_index, lemma_first_index_at};
use crate::metadata::{member_views, MemberView, WorkspaceMember};
use crate::strings::str_equal;
use minijinja::Value;

verus! {

/// Version of this tool that the generated Dockerfile installs by default.
pub const TOOL_VERSION: &'static str = "0.1.0";

/// The multi-stage Dockerfile, as a template.
pub const TEMPLATE: &'static str = "# Stage 1: Install workspace-cache tool
FROM {{ base_image }} AS base
WORKDIR /app
{% if from_git %}RUN cargo install --git https://github.com/preiter93/workspace-cache workspace-cache{% else %}RUN cargo install workspace-cache@{{ tool_version }}{% endif %}

# Stage 2: Generate minimal workspace with stub sources for dependency resolution
FROM base AS planner
COPY . .
RUN workspace-cache deps --bin {{ bin }}{% if fast %} --fast{% endif %}

# Stage 3: Build dependencies only (cached until Cargo.toml/Cargo.lock change)
FROM base AS deps
COPY --from=planner /app/.workspace-cache .
RUN cargo build{% if release %} --release{% endif %}

# Stage 4: Build the actual binary with real source code
FROM deps AS builder
RUN rm -rf {% for member in members %}{{ member.path }}/src{% if not loop.last %} {% endif %}{% endfor %}
{%- for member in members %}
COPY {{ member.path }} {{ member.path }}
{%- endfor %}
# Clean workspace crates to force rebuild with real sources. Docker COPY
# preserves original file mtimes, which confuses cargo's fingerprinting.
# This only removes workspace crate artifacts - dependencies stay cached.
RUN cargo clean{% if release %} --release{% endif %}{% for member in members %} -p {{ member.name }}{% endfor %}
RUN cargo build{% if release %} --release{% endif %} --bin {{ bin }}

# Stage 5: Minimal runtime image
FROM {{ runtime_image }} AS runtime
COPY --from=builder /app/target/{{ profile_dir }}/{{ bin }} /usr/local/bin/{{ bin }}
ENTRYPOINT [\"/usr/local/bin/{{ bin }}\"]
";

/// The variables a template is rendered with: text variables, flags, and
/// lists of records whose fields are text.
pub struct TemplateContext {
    pub strings: Vec<(String, String)>,
    pub flags: Vec<(String, bool)>,
    pub lists: Vec<(String, Vec<Vec<(String, String)>>)>,
}

/// The abstract content of a `TemplateContext`.
pub struct ContextView {
    pub strings: Seq<(Seq<char>, Seq<char>)>,
    pub flags: Seq<(Seq<char>, bool)>,
    pub lists: Seq<(Seq<char>, Seq<Seq<(Seq<char>, Seq<char>)>>)>,
}

pub open spec fn pair_view(p: (String, String)) -> (Seq<char>, Seq<char>) {
    (p.0@, p.1@)
}

pub open spec fn record_view(r: Vec<(String, String)>) -> Seq<(Seq<char>, Seq<char>)> {
    r@.map_values(|p: (String, String)| pair_view(p))
}

impl View for TemplateContext {
    type V = ContextView;

    open spec fn view(&self) -> ContextView {
        ContextView {
            strings: self.strings@.map_values(|p: (String, String)| pair_view(p)),
            flags: self.flags@.map_values(|p: (String, bool)| (p.0@, p.1)),
            lists: self.lists@.map_values(
                |l: (String, Vec<Vec<(String, String)>>)|
                    (l.0@, l.1@.map_values(|r: Vec<(String, String)>| record_view(r))),
            ),
        }
    }
}

/// What `minijinja` renders from the template `source`, registered under
/// `name`, with the given variables: the text, or `None` when the template
/// does not parse or fails to render.
pub uninterp spec fn rendered_template(name: Seq<char>, source: Seq<char>, ctx: ContextView) -> Option<Seq<char>>;

/// A template the renderer refused.
#[verifier::external_type_specification]
#[verifier::external_body]
pub struct ExTemplateError(minijinja::Error);

/// Renders `source` with `minijinja::Environment::render_named_str` in a
/// fresh environment, the variables of `ctx` forming the context (text as
/// strings, flags as booleans, each list as a sequence of maps). Claimed:
/// the outcome is the one `rendered_template` names for these arguments;
/// the template language itself is not stated.
#[verifier::external_body]
fn render_template(name: &str, source: &str, ctx: &TemplateContext) -> (res: Result<String, minijinja::Error>)
    ensures
        match res {
            Ok(text) => rendered_template(name@, source@, ctx@) == Some(text@),
            Err(_) => rendered_template(name@, source@, ctx@) is None,
        },
{
    let texts = ctx.strings.iter().map(|(k, v)| (k.as_str(), Value::from(v.as_str())));
    let flags = ctx.flags.iter().map(|(k, b)| (k.as_str(), Value::from(*b)));
    let lists = ctx.lists.iter().map(|(k, rows)| (k.as_str(), rows.iter().map(
        |r| r.iter().map(|(f, v)| (f.as_str(), v.as_str())).collect::<Value>()).collect::<Value>()));
    let vars = Value::from_iter(texts.chain(flags).chain(lists));
    minijinja::Environment::new().render_named_str(name, source, vars)
}

/// What the Dockerfile is generated for.
pub struct DockerfileConfig {
    pub bin: String,
    pub profile: String,
    pub base_image: String,
    pub runtime_image: String,
    pub members: Vec<WorkspaceMember>,
    pub fast: bool,
    pub from_git: bool,
    /// Version of the tool to install; this tool's own when absent.
    pub tool_version: Option<String>,
}

/// Why no Dockerfile came out.
pub enum DockerfileError {
    Template(minijinja::Error),
}

/// Build profile directory: `release` for the release profile, `debug`
/// for anything else.
pub open spec fn profile_dir_spec(profile: Seq<char>) -> Seq<char> {
    if profile == "release"@ {
        "release"@
    } else {
        "debug"@
    }
}

/// The record each member contributes to the template.
pub open spec fn member_record(m: MemberView) -> Seq<(Seq<char>, Seq<char>)> {
    seq![("name"@, m.name), ("path"@, m.path)]
}

/// The variables the Dockerfile template is rendered with.
pub open spec fn dockerfile_context(
    bin: Seq<char>,
    profile: Seq<char>,
    base_image: Seq<char>,
    runtime_image: Seq<char>,
    members: Seq<MemberView>,
    fast: bool,
    from_git: bool,
    tool_version: Option<Seq<char>>,
) -> ContextView {
    ContextView {
        strings: seq![
            ("base_image"@, base_image),
            ("runtime_image"@, runtime_image),
            ("bin"@, bin),
            ("profile_dir"@, profile_dir_spec(profile)),
            ("tool_version"@, match tool_version {
                Some(v) => v,
                None => TOOL_VERSION@,
            }),
        ],
        flags: seq![("release"@, profile == "release"@), ("fast"@, fast), ("from_git"@, from_git)],
        lists: seq![("members"@, members.map_values(|m: MemberView| member_record(m)))],
    }
}

pub open spec fn config_context(config: DockerfileConfig) -> ContextView {
    dockerfile_context(
        config.bin@,
        config.profile@,
        config.base_image@,
        config.runtime_image@,
        member_views(config.members@),
        config.fast,
        config.from_git,
        match config.tool_version {
            Some(v) => Some(v@),
            None => None,
        },
    )
}

fn text_var(name: &str, value: String) -> (v: (String, String))
    ensures
        pair_view(v) == (name@, value@),
{
    (name.to_owned(), value)
}

/// The variables the Dockerfile template is rendered with.
pub fn template_context(config: &DockerfileConfig) -> (ctx: TemplateContext)
    ensures
        ctx@ == config_context(*config),
{
    let release = str_equal(config.profile.as_str(), "release");
    let profile_dir = if release {
        "release".to_owned()
    } else {
        "debug".to_owned()
    };
    let tool_version = match &config.tool_version {
        Some(v) => v.clone(),
        None => TOOL_VERSION.to_owned(),
    };
    let mut strings: Vec<(String, String)> = Vec::new();
    strings.push(text_var("base_image", config.base_image.clone()));
    strings.push(text_var("runtime_image", config.runtime_image.clone()));
    strings.push(text_var("bin", config.bin.clone()));
    strings.push(text_var("profile_dir", profile_dir));
    strings.push(text_var("tool_version", tool_version));
    let mut flags: Vec<(String, bool)> = Vec::new();
    flags.push(("release".to_owned(), release));
    flags.push(("fast".to_owned(), config.fast));
    flags.push(("from_git".to_owned(), config.from_git));
    let mut rows: Vec<Vec<(String, String)>> = Vec::new();
    let ghost mv = member_views(config.members@);
    let mut i: usize = 0;
    while i < config.members.len()
        invariant
            i <= config.members.len(),
            mv == member_views(config.members@),
            rows@.map_values(|r: Vec<(String, String)>| record_view(r)) == mv.take(i as int).map_values(
                |m: MemberView| member_record(m),
            ),
        decreases config.members.len() - i,
    {
        let ghost before = rows@;
        let mut row: Vec<(String, String)> = Vec::new();
        row.push(text_var("name", config.members[i].name.clone()));
        row.push(text_var("path", config.members[i].path.clone()));
        assert(record_view(row) =~= member_record(mv[i as int]));
        rows.push(row);
        proof {
            let lhs = rows@.map_values(|r: Vec<(String, String)>| record_view(r));
            let rhs = mv.take(i + 1).map_values(|m: MemberView| member_record(m));
            let prev = mv.take(i as int).map_values(|m: MemberView| member_record(m));
            assert(before.map_values(|r: Vec<(String, String)>| record_view(r)) == prev);
            assert(before.map_values(|r: Vec<(String, String)>| record_view(r)).len() == before.len());
            assert forall|j: int| 0 <= j < i + 1 implies lhs[j] == rhs[j] by {
                if j < i {
                    assert(rows@[j] == before[j]);
                    assert(prev[j] == rhs[j]);
                }
            }
            assert(lhs =~= rhs);
        }
        i += 1;
    }
    assert(mv.take(config.members.len() as int) =~= mv);
    let mut lists: Vec<(String, Vec<Vec<(String, String)>>)> = Vec::new();
    lists.push(("members".to_owned(), rows));
    let ctx = TemplateContext { strings, flags, lists };
    assert(ctx@.strings =~= config_context(*config).strings);
    assert(ctx@.flags =~= config_context(*config).flags);
    assert(ctx@.lists =~= config_context(*config).lists);
    ctx
}

pub open spec fn text_named(name: Seq<char>) -> spec_fn((Seq<char>, Seq<char>)) -> bool {
    |p: (Seq<char>, Seq<char>)| p.0 == name
}

pub open spec fn flag_named(name: Seq<char>) -> spec_fn((Seq<char>, bool)) -> bool {
    |p: (Seq<char>, bool)| p.0 == name
}

pub open spec fn list_named(name: Seq<char>) -> spec_fn((Seq<char>, Seq<Seq<(Seq<char>, Seq<char>)>>)) -> bool {
    |p: (Seq<char>, Seq<Seq<(Seq<char>, Seq<char>)>>)| p.0 == name
}

/// The value of the first text variable of `ctx` called `name`.
pub open spec fn text_value(ctx: ContextView, name: Seq<char>) -> Option<Seq<char>> {
    match first_index(ctx.strings, text_named(name)) {
        Some(i) => Some(ctx.strings[i].1),
        None => None,
    }
}

/// The value of the first flag of `ctx` called `name`.
pub open spec fn flag_value(ctx: ContextView, name: Seq<char>) -> Option<bool> {
    match first_index(ctx.flags, flag_named(name)) {
        Some(i) => Some(ctx.flags[i].1),
        None => None,
    }
}

/// The records of the first list of `ctx` called `name`.
pub open spec fn list_value(ctx: ContextView, name: Seq<char>) -> Option<Seq<Seq<(Seq<char>, Seq<char>)>>> {
    match first_index(ctx.lists, list_named(name)) {
        Some(i) => Some(ctx.lists[i].1),
        None => None,
    }
}

/// The Dockerfile is rendered with what the configuration asks for: the
/// base image, the runtime image and the binary as given; `release` set and
/// the `release` profile directory exactly for the release profile, the
/// `debug` one otherwise; the tool version given, or this tool's own; the
/// `fast` and `from_git` switches as given; and one record per member, in
/// order, holding its name and its path.
pub proof fn law_context_follows_config(config: DockerfileConfig)
    ensures
        text_value(config_context(config), "base_image"@) == Some(config.base_image@),
        text_value(config_context(config), "runtime_image"@) == Some(config.runtime_image@),
        text_value(config_context(config), "bin"@) == Some(config.bin@),
        text_value(config_context(config), "profile_dir"@) == Some(
            if config.profile@ == "release"@ {
                "release"@
            } else {
                "debug"@
            },
        ),
        text_value(config_context(config), "tool_version"@) == Some(
            match config.tool_version {
                Some(v) => v@,
                None => TOOL_VERSION@,
            },
        ),
        flag_value(config_context(config), "release"@) == Some(config.profile@ == "release"@),
        flag_value(config_context(config), "fast"@) == Some(config.fast),
        flag_value(config_context(config), "from_git"@) == Some(config.from_git),
        list_value(config_context(config), "members"@) is Some,
        list_value(config_context(config), "members"@).unwrap().len() == config.members.len(),
        forall|i: int|
            0 <= i < config.members.len() ==> #[trigger] list_value(config_context(config), "members"@).unwrap()[i]
                == seq![("name"@, config.members@[i].name@), ("path"@, config.members@[i].path@)],
{
    reveal_strlit("base_image");
    reveal_strlit("runtime_image");
    reveal_strlit("bin");
    reveal_strlit("profile_dir");
    reveal_strlit("tool_version");
    reveal_strlit("release");
    reveal_strlit("fast");
    reveal_strlit("from_git");
    let ctx = config_context(config);
    let s = ctx.strings;
    let f = ctx.flags;
    assert(s[0].0.len() == 10 && s[1].0.len() == 13 && s[2].0.len() == 3 && s[3].0.len() == 11 && s[4].0.len()
        == 12);
    lemma_first_index_at(s, text_named("base_image"@), 0);
    lemma_first_index_at(s, text_named("runtime_image"@), 1);
    lemma_first_index_at(s, text_named("bin"@), 2);
    lemma_first_index_at(s, text_named("profile_dir"@), 3);
    lemma_first_index_at(s, text_named("tool_version"@), 4);
    assert(f[0].0.len() == 7 && f[1].0.len() == 4 && f[2].0.len() == 8);
    lemma_first_index_at(f, flag_named("release"@), 0);
    lemma_first_index_at(f, flag_named("fast"@), 1);
    lemma_first_index_at(f, flag_named("from_git"@), 2);
    lemma_first_index_at(ctx.lists, list_named("members"@), 0);
}

/// Renders the Dockerfile for `config`.
pub fn generate(config: &DockerfileConfig) -> (res: Result<String, DockerfileError>)
    ensures
        match res {
            Ok(text) => rendered_template("Dockerfile"@, TEMPLATE@, config_context(*config)) == Some(text@),
            Err(_) => rendered_template("Dockerfile"@, TEMPLATE@, config_context(*config)) is None,
        },
{
    let ctx = template_context(config);
    match render_template("Dockerfile", TEMPLATE, &ctx) {
        Ok(text) => Ok(text),
        Err(e) => Err(DockerfileError::Template(e)),
    }
}

} // verus!
