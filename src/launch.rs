//! What happens once a helper is chosen: the kernel operations that restrict
//! the process, in the one order that is safe, and then the exec.
use vstd::prelude::*;
use crate::capability::CapabilitySet;
use crate::registry::{invoked_path, text_bytes, Helper, Registry, UnknownHelper};

verus! {

/// A capability category of the process.
#[derive(PartialEq, Eq, Structural, Clone, Copy, Debug)]
pub enum Category {
    Effective,
    Inheritable,
    Permitted,
    Ambient,
}

/// One step of the launch, each performed by the kernel.
#[derive(PartialEq, Eq, Structural, Clone, Copy, Debug)]
pub enum Action {
    /// Set the securebit that ends the full privilege of root.
    SetNoRoot,
    /// Replace a category with exactly the helper's capabilities.
    ReplaceSet(Category),
    /// Raise one capability into the ambient category.
    RaiseAmbient(u8),
    /// Set the no-new-privileges attribute.
    SetNoNewPrivs,
    /// Replace the process image with the helper.
    Exec,
}

/// One variable of the helper's environment.
pub struct EnvVar {
    pub name: String,
    pub value: String,
}

/// How the helper is started: its path, which is also element 0 of its
/// arguments, the arguments after that, and its whole environment.
pub struct LaunchSpec {
    pub program: String,
    pub args: Vec<Vec<u8>>,
    pub env: Vec<EnvVar>,
}

/// The whole launch of one invocation.
pub struct Plan {
    /// The capabilities that the restriction keeps (empty where there is none).
    pub caps: Vec<u8>,
    pub actions: Vec<Action>,
    pub launch: LaunchSpec,
}

/// The restriction that keeps the capabilities `caps`, in order.
pub open spec fn restriction(caps: Seq<u8>) -> Seq<Action> {
    seq![Action::SetNoRoot, Action::ReplaceSet(Category::Effective),
        Action::ReplaceSet(Category::Inheritable), Action::ReplaceSet(Category::Permitted)]
        + caps.map_values(|c: u8| Action::RaiseAmbient(c))
        + seq![Action::SetNoNewPrivs]
}

/// The steps of a launch: the restriction where the helper has a capability
/// set, then the exec.
pub open spec fn launch_actions(caps: Option<Seq<u8>>) -> Seq<Action> {
    match caps {
        Some(c) => restriction(c) + seq![Action::Exec],
        None => seq![Action::Exec],
    }
}

/// The restriction that keeps the capabilities of `set`.
pub fn restriction_actions(set: &CapabilitySet) -> (r: (Vec<u8>, Vec<Action>))
    requires
        set.wf(),
    ensures
        r.0@.to_set() == set@,
        r.0@.no_duplicates(),
        r.1@ == restriction(r.0@),
{
    let caps = set.indices();
    let mut actions: Vec<Action> = Vec::new();
    actions.push(Action::SetNoRoot);
    actions.push(Action::ReplaceSet(Category::Effective));
    actions.push(Action::ReplaceSet(Category::Inheritable));
    actions.push(Action::ReplaceSet(Category::Permitted));
    let ghost head = actions@;
    let mut j: usize = 0;
    while j < caps.len()
        invariant
            j <= caps@.len(),
            actions@ == head + caps@.take(j as int).map_values(|c: u8| Action::RaiseAmbient(c)),
        decreases caps@.len() - j,
    {
        actions.push(Action::RaiseAmbient(caps[j]));
        assert(caps@.take(j + 1) =~= caps@.take(j as int).push(caps@[j as int]));
        assert(caps@.take(j + 1).map_values(|c: u8| Action::RaiseAmbient(c))
            =~= caps@.take(j as int).map_values(|c: u8| Action::RaiseAmbient(c)).push(Action::RaiseAmbient(caps@[j as int])));
        j += 1;
    }
    assert(caps@.take(caps@.len() as int) =~= caps@);
    actions.push(Action::SetNoNewPrivs);
    assert(actions@ =~= restriction(caps@));
    proof {
        assert forall|a: int, b: int| 0 <= a < caps@.len() && 0 <= b < caps@.len() && a != b implies caps@[a] != caps@[b] by {
            if a < b {
                assert(set.caps@[a].index != set.caps@[b].index);
            } else {
                assert(set.caps@[b].index != set.caps@[a].index);
            }
        }
    }
    (caps, actions)
}

/// The environment a helper gets, and nothing else of the caller's.
pub fn helper_env() -> (r: Vec<EnvVar>)
    ensures
        r@.len() == 3,
        r@[0].name@ == "HOME"@ && r@[0].value@ == "/"@,
        r@[1].name@ == "TERM"@ && r@[1].value@ == "linux"@,
        r@[2].name@ == "PATH"@ && r@[2].value@ == "/sbin:/bin:/usr/sbin:/usr/bin"@,
{
    let mut r: Vec<EnvVar> = Vec::new();
    r.push(EnvVar { name: String::from_str("HOME"), value: String::from_str("/") });
    r.push(EnvVar { name: String::from_str("TERM"), value: String::from_str("linux") });
    r.push(EnvVar { name: String::from_str("PATH"), value: String::from_str("/sbin:/bin:/usr/sbin:/usr/bin") });
    r
}

/// How `helper` is started for the invocation `args`: at its own path, with
/// the arguments after element 0, in the fixed environment.
pub fn launch_spec(helper: &Helper, args: &Vec<Vec<u8>>) -> (r: LaunchSpec)
    requires
        args@.len() > 0,
    ensures
        r.program@ == helper.path@,
        r.args.deep_view() == args.deep_view().drop_first(),
        r.env@.len() == 3,
        r.env@[0].name@ == "HOME"@ && r.env@[0].value@ == "/"@,
        r.env@[1].name@ == "TERM"@ && r.env@[1].value@ == "linux"@,
        r.env@[2].name@ == "PATH"@ && r.env@[2].value@ == "/sbin:/bin:/usr/sbin:/usr/bin"@,
{
    let mut tail: Vec<Vec<u8>> = Vec::new();
    let mut j: usize = 1;
    while j < args.len()
        invariant
            1 <= j <= args@.len(),
            tail@.len() == j - 1,
            forall|k: int| 0 <= k < j - 1 ==> (#[trigger] tail@[k])@ == args@[k + 1]@,
        decreases args@.len() - j,
    {
        tail.push(args[j].clone());
        j += 1;
    }
    assert(tail.deep_view() =~= args.deep_view().drop_first());
    LaunchSpec { program: helper.path.clone(), args: tail, env: helper_env() }
}

/// The capabilities a helper keeps, in the order of its set, if it has one.
pub open spec fn helper_caps(h: Helper) -> Option<Set<u8>> {
    match h.capabilities {
        Some(c) => Some(c@),
        None => None,
    }
}

/// Plans the launch for the invocation `args`: the first helper that admits
/// it, the restriction its capability set asks for (none where it has no
/// set), and then the exec. Where no helper admits the invocation there is
/// no plan, so nothing is restricted and nothing is started.
pub fn plan_invocation(registry: &Registry, args: &Vec<Vec<u8>>) -> (r: Result<Plan, UnknownHelper>)
    requires
        registry.wf(),
    ensures
        r is Err <==> registry.rejects(args.deep_view()),
        r matches Err(e) ==> e.path@ == invoked_path(args.deep_view()),
        r matches Ok(p) ==> exists|i: int| #![trigger registry.helpers@[i]]
            registry.first_match(args.deep_view(), i) && {
                let h = registry.helpers@[i];
                &&& p.launch.program@ == h.path@
                &&& p.launch.args.deep_view() == args.deep_view().drop_first()
                &&& match helper_caps(h) {
                    Some(set) => p.caps@.to_set() == set && p.caps@.no_duplicates()
                        && p.actions@ == launch_actions(Some(p.caps@)),
                    None => p.caps@.len() == 0 && p.actions@ == launch_actions(None),
                }
            },
        r matches Ok(p) ==> p.launch.env@.len() == 3
            && p.launch.env@[0].name@ == "HOME"@ && p.launch.env@[0].value@ == "/"@
            && p.launch.env@[1].name@ == "TERM"@ && p.launch.env@[1].value@ == "linux"@
            && p.launch.env@[2].name@ == "PATH"@
            && p.launch.env@[2].value@ == "/sbin:/bin:/usr/sbin:/usr/bin"@,
{
    let i = match registry.find_index(args) {
        Some(i) => i,
        None => return Err(UnknownHelper::of(args)),
    };
    let helper = &registry.helpers[i];
    assert(args.deep_view().len() == args@.len());
    let launch = launch_spec(helper, args);
    match &helper.capabilities {
        Some(set) => {
            assert(registry.helpers@[i as int].wf());
            let (caps, mut actions) = restriction_actions(set);
            actions.push(Action::Exec);
            Ok(Plan { caps, actions, launch })
        },
        None => {
            let mut actions: Vec<Action> = Vec::new();
            actions.push(Action::Exec);
            assert(actions@ =~= launch_actions(None));
            Ok(Plan { caps: Vec::new(), actions, launch })
        },
    }
}

/// What the kernel holds of the process that the launch changes.
pub struct KernelState {
    pub no_root: bool,
    pub effective: Set<u8>,
    pub inheritable: Set<u8>,
    pub permitted: Set<u8>,
    pub ambient: Set<u8>,
    pub no_new_privs: bool,
    pub replaced: bool,
}

/// The kernel state after `a` succeeds, where `caps` is what the plan keeps.
pub open spec fn step(k: KernelState, a: Action, caps: Set<u8>) -> KernelState {
    match a {
        Action::SetNoRoot => KernelState { no_root: true, ..k },
        Action::ReplaceSet(Category::Effective) => KernelState { effective: caps, ..k },
        Action::ReplaceSet(Category::Inheritable) => KernelState { inheritable: caps, ..k },
        Action::ReplaceSet(Category::Permitted) => KernelState { permitted: caps, ..k },
        Action::ReplaceSet(Category::Ambient) => KernelState { ambient: caps, ..k },
        Action::RaiseAmbient(c) => KernelState { ambient: k.ambient.insert(c), ..k },
        Action::SetNoNewPrivs => KernelState { no_new_privs: true, ..k },
        Action::Exec => KernelState { replaced: true, ..k },
    }
}

/// The kernel state after the actions `acts` all succeed, in order.
pub open spec fn run(k: KernelState, acts: Seq<Action>, caps: Set<u8>) -> KernelState
    decreases acts.len(),
{
    if acts.len() == 0 {
        k
    } else {
        step(run(k, acts.drop_last(), caps), acts.last(), caps)
    }
}

proof fn lemma_run_append(k: KernelState, a: Seq<Action>, b: Seq<Action>, caps: Set<u8>)
    ensures
        run(k, a + b, caps) == run(run(k, a, caps), b, caps),
    decreases b.len(),
{
    if b.len() == 0 {
        assert(a + b =~= a);
    } else {
        assert((a + b).drop_last() =~= a + b.drop_last());
        lemma_run_append(k, a, b.drop_last(), caps);
    }
}

proof fn lemma_run_raises(k: KernelState, cs: Seq<u8>, caps: Set<u8>)
    ensures
        ({
            let e = run(k, cs.map_values(|c: u8| Action::RaiseAmbient(c)), caps);
            &&& e.ambient == k.ambient.union(cs.to_set())
            &&& e.effective == k.effective && e.inheritable == k.inheritable && e.permitted == k.permitted
            &&& e.no_root == k.no_root && e.no_new_privs == k.no_new_privs && e.replaced == k.replaced
        }),
    decreases cs.len(),
{
    let m = cs.map_values(|c: u8| Action::RaiseAmbient(c));
    if cs.len() == 0 {
        assert(cs.to_set() =~= Set::<u8>::empty());
        assert(k.ambient.union(cs.to_set()) =~= k.ambient);
    } else {
        assert(m.drop_last() =~= cs.drop_last().map_values(|c: u8| Action::RaiseAmbient(c)));
        lemma_run_raises(k, cs.drop_last(), caps);
        assert(cs =~= cs.drop_last() + seq![cs.last()]);
        assert(cs.to_set() =~= cs.drop_last().to_set().insert(cs.last())) by {
            Seq::<u8>::lemma_to_set_insert_commutes(cs.drop_last(), cs.last());
        }
        assert(k.ambient.union(cs.drop_last().to_set()).insert(cs.last()) =~= k.ambient.union(cs.to_set()));
    }
}

/// Once the restriction that keeps `caps` has run, whatever the state
/// before: root has no full privilege, the effective, inheritable and
/// permitted categories hold exactly those capabilities, each of them is
/// ambient, and no new privilege can be gained.
pub proof fn lemma_restriction_outcome(k: KernelState, caps: Seq<u8>)
    ensures
        ({
            let e = run(k, restriction(caps), caps.to_set());
            &&& e.no_root
            &&& e.effective == caps.to_set()
            &&& e.inheritable == caps.to_set()
            &&& e.permitted == caps.to_set()
            &&& caps.to_set().subset_of(e.ambient)
            &&& e.no_new_privs
            &&& !e.replaced <== !k.replaced
        }),
{
    let s = caps.to_set();
    let head = seq![Action::SetNoRoot, Action::ReplaceSet(Category::Effective),
        Action::ReplaceSet(Category::Inheritable), Action::ReplaceSet(Category::Permitted)];
    let raises = caps.map_values(|c: u8| Action::RaiseAmbient(c));
    let tail = seq![Action::SetNoNewPrivs];
    assert(restriction(caps) == head + raises + tail);
    lemma_run_append(k, head + raises, tail, s);
    lemma_run_append(k, head, raises, s);
    let k4 = run(k, head, s);
    let h3 = head.drop_last();
    let h2 = h3.drop_last();
    let h1 = h2.drop_last();
    assert(h1.drop_last() =~= Seq::<Action>::empty());
    assert(h1.last() == Action::SetNoRoot);
    assert(h2.last() == Action::ReplaceSet(Category::Effective));
    assert(h3.last() == Action::ReplaceSet(Category::Inheritable));
    assert(head.last() == Action::ReplaceSet(Category::Permitted));
    assert(run(k, h1, s).no_root);
    assert(run(k, h2, s) == step(run(k, h1, s), h2.last(), s));
    assert(run(k, h3, s) == step(run(k, h2, s), h3.last(), s));
    assert(k4 == step(run(k, h3, s), head.last(), s));
    assert(run(k, h1.drop_last(), s) == k);
    assert(run(k, h1, s) == step(k, Action::SetNoRoot, s));
    assert(k4.no_root && k4.effective == s && k4.inheritable == s && k4.permitted == s);
    assert(k4.replaced == k.replaced);
    lemma_run_raises(k4, caps, s);
    assert(tail.drop_last() =~= Seq::<Action>::empty());
    let k5 = run(k4, raises, s);
    assert(k4.ambient.union(s).subset_of(k5.ambient));
    assert(run(k5, tail.drop_last(), s) == k5);
    assert(run(k5, tail, s) == step(k5, Action::SetNoNewPrivs, s));
}

/// The rank of an action in the launch order.
pub open spec fn rank(a: Action) -> int {
    match a {
        Action::SetNoRoot => 0,
        Action::ReplaceSet(_) => 1,
        Action::RaiseAmbient(_) => 2,
        Action::SetNoNewPrivs => 3,
        Action::Exec => 4,
    }
}

/// In every launch, the securebit comes before the replacement of the
/// categories, which comes before the ambient raises, which come before
/// no-new-privileges, which comes before the exec; no-new-privileges is set
/// once where there is a restriction, and the exec is the last action.
pub proof fn lemma_launch_order(caps: Option<Seq<u8>>)
    ensures
        ({
            let acts = launch_actions(caps);
            &&& forall|i: int, j: int| 0 <= i < j < acts.len() ==> rank(#[trigger] acts[i]) <= rank(#[trigger] acts[j])
            &&& acts.last() == Action::Exec
            &&& forall|i: int| 0 <= i < acts.len() - 1 ==> #[trigger] acts[i] != Action::Exec
            &&& caps is Some ==> acts.filter(|a: Action| a == Action::SetNoNewPrivs).len() == 1
        }),
{
    let acts = launch_actions(caps);
    match caps {
        None => {},
        Some(c) => {
            let n = c.len();
            assert(acts.len() == n + 6);
            assert forall|i: int| 0 <= i < acts.len() implies rank(#[trigger] acts[i]) == (
                if i == 0 { 0int } else if i < 4 { 1 } else if i < 4 + n { 2 } else if i == 4 + n { 3 } else { 4 }
            ) by {}
            lemma_filter_one(acts, n + 4 as int);
        },
    }
}

proof fn lemma_filter_one(acts: Seq<Action>, at: int)
    requires
        0 <= at < acts.len(),
        acts[at] == Action::SetNoNewPrivs,
        forall|i: int| 0 <= i < acts.len() && i != at ==> #[trigger] acts[i] != Action::SetNoNewPrivs,
    ensures
        acts.filter(|a: Action| a == Action::SetNoNewPrivs).len() == 1,
    decreases acts.len(),
{
    reveal(Seq::filter);
    let p = |a: Action| a == Action::SetNoNewPrivs;
    if at == acts.len() - 1 {
        assert(acts.drop_last().filter(p) =~= Seq::<Action>::empty()) by {
            lemma_filter_none(acts.drop_last());
        }
    } else {
        lemma_filter_one(acts.drop_last(), at);
    }
}

proof fn lemma_filter_none(acts: Seq<Action>)
    requires
        forall|i: int| 0 <= i < acts.len() ==> #[trigger] acts[i] != Action::SetNoNewPrivs,
    ensures
        acts.filter(|a: Action| a == Action::SetNoNewPrivs).len() == 0,
    decreases acts.len(),
{
    reveal(Seq::filter);
    if acts.len() > 0 {
        lemma_filter_none(acts.drop_last());
    }
}

} // verus!
