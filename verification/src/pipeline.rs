//! Run options: the gap mask and which diagrams to produce.
use crate::text::{
    append_str, chars_of, lowercase_text, split_chars, split_on, str_eq, string_from_chars, string_views,
    to_lowercase, trim_ws, trim_ws_chars, views,
};
use crate::azure::graph::Data;
use crate::models::subnet::Subnet;
use crate::processing::dedup::{de_duplicate_subnets, default_ignored_names};
use crate::processing::overlap::{
    active_subnets, conflict_groups, excluded_subnets, excluded_views, resolve_overlapping_vnets, vnet_cidrs_wf,
    vnet_infos, ExcludedSubnet,
};
use crate::subnet_order::{dedup_records, kept_records, lemma_dedup_no_repeats, same_key, stable_sorted};
use crate::{check_for_duplicate_subnets, get_sorted_subnets};
use vstd::prelude::*;

verus! {

/// Options of a run.
#[derive(Debug, Clone)]
pub struct Args {
    /// Largest gap block size, as a prefix length (smaller number, bigger
    /// blocks).
    pub gap_mask: u8,
    /// Comma-separated diagram kinds: `md`, `dot`, `svg`.
    pub diagram: String,
}

/// The diagram kinds named in `pieces`: each piece trimmed and lower-cased,
/// empty ones dropped, each kind once, in order of first appearance.
pub open spec fn diagram_kinds(pieces: Seq<Seq<char>>) -> Seq<Seq<char>>
    decreases pieces.len(),
{
    if pieces.len() == 0 {
        Seq::empty()
    } else {
        let r = diagram_kinds(pieces.drop_last());
        let t = lowercase_text(trim_ws(pieces.last()));
        if t.len() > 0 && !r.contains(t) {
            r.push(t)
        } else {
            r
        }
    }
}

/// Whether the text is one of the list.
fn listed(list: &Vec<String>, t: &str) -> (r: bool)
    ensures
        r == string_views(list@).contains(t@),
{
    let mut k: usize = 0;
    while k < list.len()
        invariant
            k <= list@.len(),
            forall|q: int| 0 <= q < k ==> list@[q]@ != t@,
        decreases list@.len() - k,
    {
        if str_eq(list[k].as_str(), t) {
            assert(string_views(list@)[k as int] == t@);
            return true;
        }
        k += 1;
    }
    proof {
        if string_views(list@).contains(t@) {
            let q = choose|q: int| 0 <= q < string_views(list@).len() && string_views(list@)[q] == t@;
            assert(list@[q]@ == t@);
        }
    }
    false
}

/// The diagram kinds of the `--diagram` value: its comma-separated pieces,
/// trimmed and lower-cased, without empty ones, each once.
pub fn parse_diagram_types(raw: &str) -> (r: Vec<String>)
    ensures
        string_views(r@) == diagram_kinds(split_on(raw@, ',')),
{
    let cs = chars_of(raw);
    let parts = split_chars(&cs, ',');
    let ghost ps = views(parts@);
    let mut out: Vec<String> = Vec::new();
    let mut k: usize = 0;
    assert(ps.subrange(0, 0) =~= Seq::<Seq<char>>::empty());
    while k < parts.len()
        invariant
            k <= parts@.len(),
            ps == views(parts@),
            ps == split_on(raw@, ','),
            string_views(out@) == diagram_kinds(ps.subrange(0, k as int)),
        decreases parts@.len() - k,
    {
        let ghost now = ps.subrange(0, k + 1);
        assert(now.drop_last() =~= ps.subrange(0, k as int));
        assert(now.last() == parts@[k as int]@);
        let t = trim_ws_chars(&parts[k]);
        let ts = string_from_chars(t.as_slice());
        let lower = to_lowercase(ts.as_str());
        if !lower.as_str().is_empty() && !listed(&out, lower.as_str()) {
            let ghost before = string_views(out@);
            out.push(lower);
            assert(string_views(out@) =~= before.push(lowercase_text(trim_ws(parts@[k as int]@))));
        }
        k += 1;
    }
    assert(ps.subrange(0, ps.len() as int) =~= ps);
    out
}

/// Whether diagram kind `kind` was asked for.
pub fn wants_diagram(kinds: &Vec<String>, kind: &str) -> (r: bool)
    ensures
        r == string_views(kinds@).contains(kind@),
{
    listed(kinds, kind)
}

/// The name of a dated output file: `net_`, the date, then `suffix`.
pub open spec fn dated_name(date: Seq<char>, suffix: Seq<char>) -> Seq<char> {
    "net_"@ + date + suffix
}

fn dated_file(date: &str, suffix: &str) -> (r: String)
    ensures
        r@ == dated_name(date@, suffix@),
{
    let mut v = chars_of("net_");
    append_str(&mut v, date);
    append_str(&mut v, suffix);
    string_from_chars(v.as_slice())
}

/// The files a run writes: the report directory, and within it the CSV,
/// the duplicates report and the diagrams that were asked for.
#[derive(Debug)]
pub struct OutputPlan {
    pub report_dir: String,
    pub csv_file: String,
    pub duplicates_file: String,
    /// The Mermaid diagram, when `md` was asked for.
    pub mermaid_file: Option<String>,
    /// The DOT diagram, when `dot` or `svg` was asked for (the SVG is
    /// rendered from it).
    pub dot_file: Option<String>,
    /// The SVG rendering, when `svg` was asked for.
    pub svg_file: Option<String>,
}

/// The files of a run on `date` (`YYYY-MM-DD`) for the diagram kinds asked
/// for.
pub fn output_plan(kinds: &Vec<String>, date: &str) -> (r: OutputPlan)
    ensures
        r.report_dir@ == "report-"@ + date@,
        r.csv_file@ == dated_name(date@, "_subnets.csv"@),
        r.duplicates_file@ == dated_name(date@, "_duplicates.md"@),
        r.mermaid_file is Some <==> string_views(kinds@).contains("md"@),
        r.mermaid_file matches Some(f) ==> f@ == dated_name(date@, "_peering.md"@),
        r.dot_file is Some <==> (string_views(kinds@).contains("dot"@) || string_views(kinds@).contains(
            "svg"@,
        )),
        r.dot_file matches Some(f) ==> f@ == dated_name(date@, "_peering.dot"@),
        r.svg_file is Some <==> string_views(kinds@).contains("svg"@),
        r.svg_file matches Some(f) ==> f@ == dated_name(date@, "_peering.svg"@),
{
    let mut dir = chars_of("report-");
    append_str(&mut dir, date);
    let wants_svg = wants_diagram(kinds, "svg");
    let mermaid_file = if wants_diagram(kinds, "md") {
        Some(dated_file(date, "_peering.md"))
    } else {
        None
    };
    let dot_file = if wants_diagram(kinds, "dot") || wants_svg {
        Some(dated_file(date, "_peering.dot"))
    } else {
        None
    };
    let svg_file = if wants_svg {
        Some(dated_file(date, "_peering.svg"))
    } else {
        None
    };
    OutputPlan {
        report_dir: string_from_chars(dir.as_slice()),
        csv_file: dated_file(date, "_subnets.csv"),
        duplicates_file: dated_file(date, "_duplicates.md"),
        mermaid_file,
        dot_file,
        svg_file,
    }
}

/// Renders a DOT file to an SVG file (an injectable seam: the program's
/// renderer runs Graphviz; a test can record the call instead).
pub trait SvgRenderer {
    fn render(&self, dot_file: &str, svg_file: &str);
}

/// Subnet `s` is excluded subnet `e` marked with the VNet that won over it.
pub open spec fn marked_as(s: Subnet, e: ExcludedSubnet) -> bool {
    &&& s.excluded_by matches Some(w) && w@ == e.winner_vnet_name@
    &&& s.vnet_name == e.subnet.vnet_name
    &&& s.vnet_cidr == e.subnet.vnet_cidr
    &&& s.subnet_name == e.subnet.subnet_name
    &&& s.subnet_cidr == e.subnet.subnet_cidr
    &&& s.nsg == e.subnet.nsg
    &&& s.location == e.subnet.location
    &&& s.dns_servers == e.subnet.dns_servers
    &&& s.subscription_id == e.subnet.subscription_id
    &&& s.subscription_name == e.subnet.subscription_name
    &&& s.ip_configurations_count == e.subnet.ip_configurations_count
    &&& s.gap == e.subnet.gap
    &&& s.src_index == e.subnet.src_index
    &&& s.block_id == e.subnet.block_id
}

/// The subnet records of a run: the active ones, then each excluded one
/// marked with `excluded_by` set to the VNet that won over it (excluded
/// subnets stay in the data, marked, so that the reports list them).
pub fn mark_excluded(active: Data, excluded: Vec<ExcludedSubnet>) -> (r: Data)
    ensures
        r.data@.len() == active.data@.len() + excluded@.len(),
        forall|k: int| 0 <= k < active.data@.len() ==> #[trigger] r.data@[k] == active.data@[k],
        forall|k: int| 0 <= k < excluded@.len() ==> marked_as(#[trigger] r.data@[active.data@.len() + k], excluded@[k]),
        r.count == active.count,
        r.skip_token == active.skip_token,
        r.total_records == active.total_records,
{
    let Data { data: mut subnets, skip_token, total_records, count } = active;
    let ghost start = subnets@;
    let ghost ex = excluded@;
    let mut src = excluded;
    let mut rev: Vec<ExcludedSubnet> = Vec::new();
    while src.len() > 0
        invariant
            src@.len() + rev@.len() == ex.len(),
            src@ == ex.subrange(0, src@.len() as int),
            forall|q: int| 0 <= q < rev@.len() ==> #[trigger] rev@[q] == ex[ex.len() - 1 - q],
        decreases src@.len(),
    {
        let ghost before = src@;
        let e = src.pop().unwrap();
        assert(e == ex[src@.len() as int]) by {
            assert(before[src@.len() as int] == ex.subrange(0, before.len() as int)[src@.len() as int]);
        }
        assert(src@ =~= ex.subrange(0, src@.len() as int));
        rev.push(e);
    }
    while rev.len() > 0
        invariant
            subnets@.len() + rev@.len() == start.len() + ex.len(),
            subnets@.len() >= start.len(),
            forall|q: int| 0 <= q < start.len() ==> #[trigger] subnets@[q] == start[q],
            forall|q: int| 0 <= q < subnets@.len() - start.len() ==> marked_as(#[trigger] subnets@[start.len() + q], ex[q]),
            forall|q: int| 0 <= q < rev@.len() ==> #[trigger] rev@[q] == ex[ex.len() - 1 - q],
        decreases rev@.len(),
    {
        let ghost n = subnets@.len() - start.len();
        let e = rev.pop().unwrap();
        assert(e == ex[n]);
        let ExcludedSubnet { subnet, winner_vnet_name } = e;
        let s = Subnet { excluded_by: Some(winner_vnet_name), ..subnet };
        subnets.push(s);
    }
    Data { data: subnets, skip_token, total_records, count }
}

/// How many Graphviz layout engines a rendering tries, locally and then in
/// Docker.
pub const DOT_ENGINE_COUNT: usize = 3;

/// The layout engine tried at position `i`: `fdp` first (hubs sit among the
/// VNets they join), then `sfdp` for graphs that `fdp` cannot lay out, then
/// `neato`.
pub open spec fn engine_name(i: int) -> Seq<char> {
    if i == 0 {
        seq!['f', 'd', 'p']
    } else if i == 1 {
        seq!['s', 'f', 'd', 'p']
    } else {
        seq!['n', 'e', 'a', 't', 'o']
    }
}

/// The name of the layout engine tried at position `i`.
pub fn dot_engine(i: usize) -> (r: &'static str)
    requires
        i < DOT_ENGINE_COUNT,
    ensures
        r@ == engine_name(i as int),
{
    proof {
        reveal_strlit("fdp");
        reveal_strlit("sfdp");
        reveal_strlit("neato");
    }
    if i == 0 {
        "fdp"
    } else if i == 1 {
        "sfdp"
    } else {
        "neato"
    }
}

/// Where an SVG rendering stands: trying the local `dot` with engine
/// `engine` (and whether a local `dot` has already been seen to run), or
/// trying Docker with engine `engine`.
#[derive(Debug, Clone, Copy, PartialEq, Eq, Structural)]
pub enum RenderState {
    Local { engine: usize, dot_installed: bool },
    Docker { engine: usize },
}

/// What came of launching one Graphviz process.
#[derive(Debug, Clone, Copy, PartialEq, Eq, Structural)]
pub enum LaunchOutcome {
    /// It ran and wrote the SVG.
    Succeeded,
    /// It ran and exited with a failure.
    Failed,
    /// Its program was not found.
    NotFound,
    /// It could not be launched for another reason.
    LaunchError,
}

/// How a rendering ended.
#[derive(Debug, Clone, Copy, PartialEq, Eq, Structural)]
pub enum RenderEnd {
    /// The DOT text was refused before anything was launched.
    Invalid,
    /// An engine wrote the SVG.
    Rendered,
    /// A local `dot` ran, and every engine failed with it.
    LocalEnginesFailed,
    /// Docker ran, and every engine failed in it.
    DockerEnginesFailed,
    /// No local `dot`, and Docker could not be launched.
    DockerUnavailable,
}

/// What the caller does next.
#[derive(Debug, Clone, Copy, PartialEq, Eq, Structural)]
pub enum RenderAction {
    /// Run the local `dot` with the engine at this position.
    RunLocal(usize),
    /// Run `dot` in Docker with the engine at this position.
    RunDocker(usize),
    /// Launch nothing more.
    Stop(RenderEnd),
}

/// A rendering state names an engine that exists.
pub open spec fn render_state_ok(s: RenderState) -> bool {
    match s {
        RenderState::Local { engine, .. } => engine < DOT_ENGINE_COUNT,
        RenderState::Docker { engine } => engine < DOT_ENGINE_COUNT,
    }
}

/// The first step: launch nothing for refused DOT text, else start with the
/// first local engine.
pub open spec fn render_first(dot_valid: bool) -> (RenderState, RenderAction) {
    let s = RenderState::Local { engine: 0, dot_installed: false };
    if dot_valid {
        (s, RenderAction::RunLocal(0))
    } else {
        (s, RenderAction::Stop(RenderEnd::Invalid))
    }
}

/// One step of the rendering, given what came of the last launch.
/// Locally: stop on success; after a failure the local `dot` is known to be
/// installed and the next engine is tried, and when none is left the
/// rendering fails; when `dot` cannot be launched, Docker is tried from its
/// first engine, unless a local `dot` already ran. In Docker: stop on
/// success, try the next engine after a failure, and stop when Docker
/// cannot be launched.
pub open spec fn render_next(s: RenderState, o: LaunchOutcome) -> (RenderState, RenderAction) {
    match s {
        RenderState::Local { engine, dot_installed } => match o {
            LaunchOutcome::Succeeded => (s, RenderAction::Stop(RenderEnd::Rendered)),
            LaunchOutcome::Failed => {
                if engine + 1 < DOT_ENGINE_COUNT {
                    let e = (engine + 1) as usize;
                    (RenderState::Local { engine: e, dot_installed: true }, RenderAction::RunLocal(e))
                } else {
                    (
                        RenderState::Local { engine, dot_installed: true },
                        RenderAction::Stop(RenderEnd::LocalEnginesFailed),
                    )
                }
            },
            _ => {
                if dot_installed {
                    (s, RenderAction::Stop(RenderEnd::LocalEnginesFailed))
                } else {
                    (RenderState::Docker { engine: 0 }, RenderAction::RunDocker(0))
                }
            },
        },
        RenderState::Docker { engine } => match o {
            LaunchOutcome::Succeeded => (s, RenderAction::Stop(RenderEnd::Rendered)),
            LaunchOutcome::Failed => {
                if engine + 1 < DOT_ENGINE_COUNT {
                    let e = (engine + 1) as usize;
                    (RenderState::Docker { engine: e }, RenderAction::RunDocker(e))
                } else {
                    (s, RenderAction::Stop(RenderEnd::DockerEnginesFailed))
                }
            },
            _ => (s, RenderAction::Stop(RenderEnd::DockerUnavailable)),
        },
    }
}

/// Starts a rendering: nothing is launched for DOT text that failed
/// validation; otherwise the first local engine is run.
pub fn render_start(dot_valid: bool) -> (r: (RenderState, RenderAction))
    ensures
        r == render_first(dot_valid),
        render_state_ok(r.0),
        !dot_valid ==> r.1 == RenderAction::Stop(RenderEnd::Invalid),
        dot_valid ==> r.1 == RenderAction::RunLocal(0),
{
    let s = RenderState::Local { engine: 0, dot_installed: false };
    if dot_valid {
        (s, RenderAction::RunLocal(0))
    } else {
        (s, RenderAction::Stop(RenderEnd::Invalid))
    }
}

/// The next state and action of a rendering after a launch came out as `o`.
pub fn render_step(s: RenderState, o: LaunchOutcome) -> (r: (RenderState, RenderAction))
    requires
        render_state_ok(s),
    ensures
        r == render_next(s, o),
        render_state_ok(r.0),
{
    match s {
        RenderState::Local { engine, dot_installed } => match o {
            LaunchOutcome::Succeeded => (s, RenderAction::Stop(RenderEnd::Rendered)),
            LaunchOutcome::Failed => {
                if engine + 1 < DOT_ENGINE_COUNT {
                    let e = engine + 1;
                    (RenderState::Local { engine: e, dot_installed: true }, RenderAction::RunLocal(e))
                } else {
                    (
                        RenderState::Local { engine, dot_installed: true },
                        RenderAction::Stop(RenderEnd::LocalEnginesFailed),
                    )
                }
            },
            _ => {
                if dot_installed {
                    (s, RenderAction::Stop(RenderEnd::LocalEnginesFailed))
                } else {
                    (RenderState::Docker { engine: 0 }, RenderAction::RunDocker(0))
                }
            },
        },
        RenderState::Docker { engine } => match o {
            LaunchOutcome::Succeeded => (s, RenderAction::Stop(RenderEnd::Rendered)),
            LaunchOutcome::Failed => {
                if engine + 1 < DOT_ENGINE_COUNT {
                    let e = engine + 1;
                    (RenderState::Docker { engine: e }, RenderAction::RunDocker(e))
                } else {
                    (s, RenderAction::Stop(RenderEnd::DockerEnginesFailed))
                }
            },
            _ => (s, RenderAction::Stop(RenderEnd::DockerUnavailable)),
        },
    }
}

/// How many launches a rendering in state `s` can still make at most.
pub open spec fn launches_left(s: RenderState) -> int {
    match s {
        RenderState::Local { engine, dot_installed } => {
            if dot_installed {
                DOT_ENGINE_COUNT - engine
            } else {
                2 * DOT_ENGINE_COUNT - engine
            }
        },
        RenderState::Docker { engine } => DOT_ENGINE_COUNT - engine,
    }
}

/// Every step that launches something more names an engine that exists,
/// runs in the state it goes to, and leaves fewer launches to make, but at
/// least this one: since the first launch starts with six left, a rendering
/// launches at most six processes and always stops.
pub proof fn lemma_render_steps_shrink(s: RenderState, o: LaunchOutcome)
    requires
        render_state_ok(s),
    ensures
        ({
            let (n, a) = render_next(s, o);
            &&& render_state_ok(n)
            &&& 0 <= launches_left(n)
            &&& (a !is Stop ==> 1 <= launches_left(n) < launches_left(s))
            &&& (a matches RenderAction::RunLocal(e) ==> n == RenderState::Local { engine: e, dot_installed: n->dot_installed })
            &&& (a matches RenderAction::RunDocker(e) ==> n == RenderState::Docker { engine: e })
        }),
{
}

/// Once a local `dot` has run, the rendering never falls back to Docker:
/// Docker cannot help when the installed Graphviz fails on the DOT text.
pub proof fn lemma_installed_dot_never_uses_docker(engine: usize, o: LaunchOutcome)
    requires
        engine < DOT_ENGINE_COUNT,
    ensures
        render_next(RenderState::Local { engine, dot_installed: true }, o).1 !is RunDocker,
        render_next(RenderState::Local { engine, dot_installed: true }, o).0 is Local,
{
}


/// The subnets ordered by block, as the run reads them.
pub open spec fn run_sorted(s: Seq<Subnet>) -> Seq<Subnet> {
    stable_sorted(s, false)
}

/// The subnets that overlap resolution keeps, de-duplicated with the default
/// list of ignored names.
pub open spec fn run_active(s: Seq<Subnet>) -> Seq<Subnet> {
    let sorted = run_sorted(s);
    let groups = conflict_groups(vnet_infos(sorted));
    let kept = if groups.len() == 0 {
        sorted
    } else {
        active_subnets(sorted, groups)
    };
    dedup_records(stable_sorted(kept_records(kept, default_ignored_names()), true))
}

/// The subnets that overlap resolution excludes, each with the VNet kept in
/// its place.
pub open spec fn run_excluded(s: Seq<Subnet>) -> Seq<(Subnet, Seq<char>)> {
    let sorted = run_sorted(s);
    let groups = conflict_groups(vnet_infos(sorted));
    if groups.len() == 0 {
        Seq::empty()
    } else {
        excluded_subnets(sorted, groups)
    }
}

/// Why the subnet data cannot go into the reports.
#[derive(Debug, Clone, Copy, PartialEq, Eq, Structural)]
pub enum PrepareError {
    /// A VNet address space has a prefix length above 32.
    PrefixTooLong,
}

/// The subnets of a run, ready for the reports.
pub struct PreparedSubnets {
    /// The kept subnets, de-duplicated, ordered by block and subscription.
    pub active: Data,
    /// The subnets of VNets excluded by overlap resolution.
    pub excluded: Vec<ExcludedSubnet>,
}

/// The subnet steps of a run: order the subnets by block, refuse a VNet
/// address space with a prefix length above 32, resolve overlapping VNets,
/// de-duplicate what is kept and check that no block and subscription
/// repeat. The last check never fails after de-duplication.
pub fn prepare_subnets(data: Data) -> (r: Result<PreparedSubnets, PrepareError>)
    ensures
        r is Err <==> !vnet_cidrs_wf(run_sorted(data.data@)),
        r matches Ok(p) ==> {
            &&& p.active.data@ == run_active(data.data@)
            &&& excluded_views(p.excluded@) == run_excluded(data.data@)
            &&& forall|i: int, j: int|
                0 <= i < j < p.active.data@.len() ==> !same_key(#[trigger] p.active.data@[i], #[trigger] p.active.data@[j])
        },
{
    let ghost input = data.data@;
    let sorted = get_sorted_subnets(data);
    assert(sorted.data@ == run_sorted(input));
    let mut k: usize = 0;
    while k < sorted.data.len()
        invariant
            k <= sorted.data@.len(),
            sorted.data@ == run_sorted(input),
            input == data.data@,
            forall|q: int| 0 <= q < k ==> (#[trigger] sorted.data@[q]).vnet_cidr.wf(),
        decreases sorted.data@.len() - k,
    {
        if sorted.data[k].vnet_cidr.mask > 32 {
            assert(!run_sorted(input)[k as int].vnet_cidr.wf());
            assert(!vnet_cidrs_wf(run_sorted(input)));
            return Err(PrepareError::PrefixTooLong);
        }
        k += 1;
    }
    let ghost ss = sorted.data@;
    let cr = resolve_overlapping_vnets(sorted);
    let active = match de_duplicate_subnets(cr.active, None) {
        Ok(d) => d,
        Err(_) => vstd::pervasive::unreached(),
    };
    proof {
        let groups = conflict_groups(vnet_infos(ss));
        let kept = if groups.len() == 0 {
            ss
        } else {
            active_subnets(ss, groups)
        };
        lemma_dedup_no_repeats(kept, default_ignored_names());
    }
    match check_for_duplicate_subnets(&active) {
        Ok(()) => Ok(PreparedSubnets { active, excluded: cr.excluded }),
        Err(_) => vstd::pervasive::unreached(),
    }
}

} // verus!
