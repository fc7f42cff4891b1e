//! Talking to the process that runs a policy: what it is started with, when it is asked for new
//! targets, and what becomes of its answers.
//!
//! The caller owns the process. Numbers that only pass through, from a policy to the motors, are
//! carried as their bit patterns.

use crate::net::Net;
use crate::scan::{chars_of, decimal, push_decimal, push_text, same_text, strings};
use vstd::prelude::*;

verus! {

/// How long a policy may take to start, in milliseconds.
pub const START_MS: u64 = 8_000;

/// How long a policy may take to reset while nothing moves, in milliseconds.
pub const RESET_MS: u64 = 2_000;

/// How long a policy may take for one frame, in milliseconds.
pub const STEP_MS: u64 = 18;

/// How often a policy is run through before it counts as loaded.
pub const WARMUPS: usize = 3;

/// The most files, processes, bytes per file and bytes of memory that a policy may have.
pub const WORKER_NOFILE_LIMIT: u64 = 64;

pub const WORKER_PROCESS_LIMIT: u64 = 16;

pub const WORKER_FILE_LIMIT: u64 = 134_217_728;

pub const WORKER_ADDRESS_SPACE_LIMIT: u64 = 1_610_612_736;

/// The one joint that no policy moves.
pub const MOUTH: &'static str = "mouth";

/// Scheduler state supplied to a policy without imposing any layout on what its model sees.
#[derive(Debug, Clone, Copy)]
pub struct PolicyContext {
    pub action: &'static str,
    /// How much of a cycle has passed, as microseconds of so many.
    pub phase: Option<(u64, u64)>,
    pub body_active: bool,
}

impl PolicyContext {
    pub fn new(action: &'static str, phase: Option<(u64, u64)>, body_active: bool) -> (c: Self)
        ensures
            c.action == action,
            c.phase == phase,
            c.body_active == body_active,
    {
        PolicyContext { action, phase, body_active }
    }

    /// What a policy is first tried with.
    pub open spec fn first(net: Net) -> ContextText {
        match net {
            Net::Walk => ContextText { action: "walk"@, phase: None, body_active: false },
            Net::Stand => ContextText { action: "stand"@, phase: None, body_active: false },
            Net::SitStand => ContextText { action: "sit"@, phase: None, body_active: false },
            Net::GroundPick => ContextText {
                action: "ground_pick"@,
                phase: Some((0, 1)),
                body_active: false,
            },
            Net::KickLeft => ContextText { action: "kick_left"@, phase: None, body_active: false },
            Net::KickRight => ContextText { action: "kick_right"@, phase: None, body_active: false },
            Net::Roulade => ContextText { action: "roulade"@, phase: None, body_active: false },
        }
    }

    pub fn warmup(net: Net) -> (c: Self)
        ensures
            c@ == PolicyContext::first(net),
    {
        match net {
            Net::Walk => PolicyContext::new("walk", None, false),
            Net::Stand => PolicyContext::new("stand", None, false),
            Net::SitStand => PolicyContext::new("sit", None, false),
            Net::GroundPick => PolicyContext::new("ground_pick", Some((0, 1)), false),
            Net::KickLeft => PolicyContext::new("kick_left", None, false),
            Net::KickRight => PolicyContext::new("kick_right", None, false),
            Net::Roulade => PolicyContext::new("roulade", None, false),
        }
    }
}

/// What a context says.
#[verifier::ext_equal]
pub struct ContextText {
    pub action: Seq<char>,
    pub phase: Option<(u64, u64)>,
    pub body_active: bool,
}

impl View for PolicyContext {
    type V = ContextText;

    open spec fn view(&self) -> ContextText {
        ContextText { action: self.action@, phase: self.phase, body_active: self.body_active }
    }
}

/// A model that a policy is tried with, and in what context.
pub struct Trial {
    pub model: &'static str,
    pub context: PolicyContext,
}

pub open spec fn trials(list: Seq<Trial>) -> Seq<(Seq<char>, ContextText)> {
    Seq::new(list.len(), |i: int| (list[i].model@, list[i].context@))
}

/// What a policy is tried with in turn: both models of a pair, both postures of sitting and
/// standing up, two phases of a pick, or simply its own action.
pub open spec fn trial_plan(nets: Seq<Net>) -> Seq<(Seq<char>, ContextText)> {
    if nets.len() == 2 {
        seq![
            ("walk"@, PolicyContext::first(Net::Walk)),
            ("stand"@, PolicyContext::first(Net::Stand)),
        ]
    } else if nets[0] == Net::SitStand {
        seq![
            ("default"@, (ContextText { action: "sit"@, phase: None, body_active: false })),
            ("default"@, (ContextText { action: "rise"@, phase: None, body_active: false })),
        ]
    } else if nets[0] == Net::GroundPick {
        seq![
            ("default"@, (ContextText { action: "ground_pick"@, phase: Some((0, 1)), body_active: false })),
            ("default"@, (ContextText { action: "ground_pick"@, phase: Some((1, 4)), body_active: false })),
        ]
    } else {
        seq![("default"@, PolicyContext::first(nets[0]))]
    }
}

/// What a policy for these networks is tried with, in turn and several times over.
pub fn warmup_trials(nets: &Vec<Net>) -> (list: Vec<Trial>)
    requires
        nets@.len() > 0,
    ensures
        trials(list@) == trial_plan(nets@),
{
    let mut list: Vec<Trial> = Vec::new();
    if nets.len() == 2 {
        list.push(Trial { model: "walk", context: PolicyContext::warmup(Net::Walk) });
        list.push(Trial { model: "stand", context: PolicyContext::warmup(Net::Stand) });
    } else {
        match nets[0] {
            Net::SitStand => {
                list.push(Trial { model: "default", context: PolicyContext::new("sit", None, false) });
                list.push(Trial { model: "default", context: PolicyContext::new("rise", None, false) });
            },
            Net::GroundPick => {
                list.push(
                    Trial {
                        model: "default",
                        context: PolicyContext::new("ground_pick", Some((0, 1)), false),
                    },
                );
                list.push(
                    Trial {
                        model: "default",
                        context: PolicyContext::new("ground_pick", Some((1, 4)), false),
                    },
                );
            },
            net => {
                list.push(Trial { model: "default", context: PolicyContext::warmup(net) });
            },
        }
    }
    proof {
        assert(trials(list@) =~= trial_plan(nets@));
    }
    list
}

/// A step of getting a policy ready.
pub enum Rehearsal {
    Reset(PolicyContext),
    Step(Trial),
}

#[verifier::ext_equal]
pub enum RehearsalText {
    Reset(ContextText),
    Step(Seq<char>, ContextText),
}

impl View for Rehearsal {
    type V = RehearsalText;

    open spec fn view(&self) -> RehearsalText {
        match self {
            Rehearsal::Reset(context) => RehearsalText::Reset(context@),
            Rehearsal::Step(trial) => RehearsalText::Step(trial.model@, trial.context@),
        }
    }
}

pub open spec fn rehearsed(list: Seq<Rehearsal>) -> Seq<RehearsalText> {
    Seq::new(list.len(), |i: int| list[i]@)
}

/// One round of trials.
pub open spec fn round(nets: Seq<Net>) -> Seq<RehearsalText> {
    Seq::new(
        trial_plan(nets).len(),
        |i: int| RehearsalText::Step(trial_plan(nets)[i].0, trial_plan(nets)[i].1),
    )
}

/// So many rounds of trials.
pub open spec fn rounds(nets: Seq<Net>, n: nat) -> Seq<RehearsalText>
    decreases n,
{
    if n == 0 {
        Seq::empty()
    } else {
        rounds(nets, (n - 1) as nat) + round(nets)
    }
}

/// All of it: a reset, the rounds, and a reset, so that the rounds leave no trace.
pub open spec fn rehearsal_plan(nets: Seq<Net>) -> Seq<RehearsalText> {
    seq![RehearsalText::Reset(PolicyContext::first(nets[0]))] + rounds(nets, WARMUPS as nat) + seq![
        RehearsalText::Reset(PolicyContext::first(nets[0])),
    ]
}

/// What a policy for these networks goes through before it may drive.
pub fn rehearsal(nets: &Vec<Net>) -> (list: Vec<Rehearsal>)
    requires
        nets@.len() > 0,
    ensures
        rehearsed(list@) == rehearsal_plan(nets@),
{
    let first = PolicyContext::warmup(nets[0]);
    let trials_once = warmup_trials(nets);
    let mut list: Vec<Rehearsal> = Vec::new();
    list.push(Rehearsal::Reset(first));
    let ghost opening = seq![RehearsalText::Reset(PolicyContext::first(nets@[0]))];
    proof {
        assert(rehearsed(list@) =~= opening + rounds(nets@, 0));
    }
    let mut n: usize = 0;
    while n < WARMUPS
        invariant
            n <= WARMUPS,
            trials(trials_once@) == trial_plan(nets@),
            rehearsed(list@) == opening + rounds(nets@, n as nat),
        decreases WARMUPS - n,
    {
        let ghost before = rehearsed(list@);
        let mut at: usize = 0;
        proof {
            assert(trials(trials_once@).len() == trials_once@.len());
            assert(round(nets@).take(0) =~= Seq::empty());
            assert(before + round(nets@).take(0) =~= before);
        }
        while at < trials_once.len()
            invariant
                at <= trials_once@.len(),
                trials_once@.len() == round(nets@).len(),
                trials(trials_once@) == trial_plan(nets@),
                rehearsed(list@) == before + round(nets@).take(at as int),
            decreases trials_once@.len() - at,
        {
            let ghost sofar = rehearsed(list@);
            let trial = Trial { model: trials_once[at].model, context: trials_once[at].context };
            proof {
                assert(trials(trials_once@)[at as int] == (trial.model@, trial.context@));
            }
            list.push(Rehearsal::Step(trial));
            proof {
                assert(rehearsed(list@) =~= sofar.push(round(nets@)[at as int]));
                assert(sofar.push(round(nets@)[at as int]) =~= before + round(nets@).take(at + 1));
            }
            at = at + 1;
        }
        proof {
            assert(round(nets@).take(at as int) =~= round(nets@));
            assert(before + round(nets@) =~= opening + rounds(nets@, (n + 1) as nat));
        }
        n = n + 1;
    }
    let ghost sofar = rehearsed(list@);
    list.push(Rehearsal::Reset(first));
    proof {
        assert(rehearsed(list@) =~= sofar.push(RehearsalText::Reset(PolicyContext::first(nets@[0]))));
        assert(rehearsed(list@) =~= rehearsal_plan(nets@));
    }
    list
}

/// A setting of a worker's environment.
pub struct Setting {
    pub name: &'static str,
    pub value: &'static str,
}

pub open spec fn settings(list: Seq<Setting>) -> Seq<(Seq<char>, Seq<char>)> {
    Seq::new(list.len(), |i: int| (list[i].name@, list[i].value@))
}

/// All that a worker is told of its environment. Its libraries keep to one thread each, so that
/// all the workers together stay within what their user may start.
pub fn worker_environment() -> (list: Vec<Setting>)
    ensures
        settings(list@) == seq![
            ("PYTHONDONTWRITEBYTECODE"@, "1"@),
            ("OPENBLAS_NUM_THREADS"@, "1"@),
            ("OMP_NUM_THREADS"@, "1"@),
            ("MKL_NUM_THREADS"@, "1"@),
            ("NUMEXPR_NUM_THREADS"@, "1"@),
        ],
{
    let mut list: Vec<Setting> = Vec::new();
    list.push(Setting { name: "PYTHONDONTWRITEBYTECODE", value: "1" });
    list.push(Setting { name: "OPENBLAS_NUM_THREADS", value: "1" });
    list.push(Setting { name: "OMP_NUM_THREADS", value: "1" });
    list.push(Setting { name: "MKL_NUM_THREADS", value: "1" });
    list.push(Setting { name: "NUMEXPR_NUM_THREADS", value: "1" });
    list
}

/// The interpreter that runs a policy: what the environment says, or what is installed, or the
/// system's own.
pub open spec fn interpreter(
    policy: Option<Seq<char>>,
    model: Option<Seq<char>>,
    installed: bool,
) -> Seq<char> {
    match policy {
        Some(path) => path,
        None => match model {
            Some(path) => path,
            None => if installed {
                "/var/lib/robotd/model-python/bin/python"@
            } else {
                "/usr/bin/python3"@
            },
        },
    }
}

/// Picks the interpreter, which has to be named by an absolute path.
pub fn choose_interpreter(policy: Option<String>, model: Option<String>, installed: bool) -> (python: Result<
    String,
    String,
>)
    ensures
        ({
            let chosen = interpreter(
                crate::models::record::said(policy),
                crate::models::record::said(model),
                installed,
            );
            match python {
                Ok(path) => path@ == chosen && crate::path::absolute(chosen),
                Err(why) => !crate::path::absolute(chosen) && why@
                    == "ROBOT_POLICY_PYTHON/ROBOT_MODEL_PYTHON 必须是绝对路径"@,
            }
        }),
{
    let chosen = match policy {
        Some(path) => path,
        None => match model {
            Some(path) => path,
            None => if installed {
                "/var/lib/robotd/model-python/bin/python".to_owned()
            } else {
                "/usr/bin/python3".to_owned()
            },
        },
    };
    let chars = chars_of(chosen.as_str());
    if chars.len() > 0 && chars[0] == '/' {
        Ok(chosen)
    } else {
        Err("ROBOT_POLICY_PYTHON/ROBOT_MODEL_PYTHON 必须是绝对路径".to_owned())
    }
}

/// What the sandbox is told: no network, no devices, nothing on the host that can be written, and
/// no life after its parent.
pub open spec fn sandbox_args() -> Seq<Seq<char>> {
    seq![
        "--die-with-parent"@,
        "--new-session"@,
        "--unshare-net"@,
        "--unshare-pid"@,
        "--unshare-ipc"@,
        "--unshare-uts"@,
        "--ro-bind"@,
        "/"@,
        "/"@,
        "--dev"@,
        "/dev"@,
        "--proc"@,
        "/proc"@,
        "--tmpfs"@,
        "/tmp"@,
        "--tmpfs"@,
        "/run"@,
        "--chdir"@,
        "/"@,
        "--"@,
    ]
}

/// What the last trusted program is told: to drop every privilege and the means to gain one.
pub open spec fn privilege_args(uid: u32, gid: u32) -> Seq<Seq<char>> {
    seq![
        "/usr/bin/setpriv"@,
        "--reuid"@,
        decimal(uid as nat),
        "--regid"@,
        decimal(gid as nat),
        "--clear-groups"@,
        "--no-new-privs"@,
        "--inh-caps=-all"@,
        "--ambient-caps=-all"@,
        "--bounding-set=-all"@,
    ]
}

/// Everything that follows the name of the sandbox on its command line.
pub open spec fn command_line(
    uid: u32,
    gid: u32,
    python: Seq<char>,
    script: Seq<char>,
    policy: Seq<char>,
    models: Seq<Seq<char>>,
) -> Seq<Seq<char>> {
    sandbox_args() + privilege_args(uid, gid) + seq![python, "-I"@, "-u"@, "-c"@, script, policy]
        + models
}

fn number(n: u32) -> (text: String)
    ensures
        text@ == decimal(n as nat),
{
    let mut text = String::new();
    push_decimal(&mut text, n as u64);
    proof {
        assert(text@ =~= decimal(n as nat));
    }
    text
}

/// The command line of a worker. Uploaded code runs under it, so all of it is fixed here.
pub fn worker_args(
    uid: u32,
    gid: u32,
    python: &str,
    script: &str,
    policy: &str,
    models: &Vec<String>,
) -> (args: Vec<String>)
    ensures
        strings(args@) == command_line(uid, gid, python@, script@, policy@, strings(models@)),
{
    let mut args: Vec<String> = Vec::new();
    args.push("--die-with-parent".to_owned());
    args.push("--new-session".to_owned());
    args.push("--unshare-net".to_owned());
    args.push("--unshare-pid".to_owned());
    args.push("--unshare-ipc".to_owned());
    args.push("--unshare-uts".to_owned());
    args.push("--ro-bind".to_owned());
    args.push("/".to_owned());
    args.push("/".to_owned());
    args.push("--dev".to_owned());
    args.push("/dev".to_owned());
    args.push("--proc".to_owned());
    args.push("/proc".to_owned());
    args.push("--tmpfs".to_owned());
    args.push("/tmp".to_owned());
    args.push("--tmpfs".to_owned());
    args.push("/run".to_owned());
    args.push("--chdir".to_owned());
    args.push("/".to_owned());
    args.push("--".to_owned());
    proof {
        assert(strings(args@) =~= sandbox_args());
    }
    args.push("/usr/bin/setpriv".to_owned());
    args.push("--reuid".to_owned());
    args.push(number(uid));
    args.push("--regid".to_owned());
    args.push(number(gid));
    args.push("--clear-groups".to_owned());
    args.push("--no-new-privs".to_owned());
    args.push("--inh-caps=-all".to_owned());
    args.push("--ambient-caps=-all".to_owned());
    args.push("--bounding-set=-all".to_owned());
    proof {
        assert(strings(args@) =~= sandbox_args() + privilege_args(uid, gid));
    }
    args.push(python.to_owned());
    args.push("-I".to_owned());
    args.push("-u".to_owned());
    args.push("-c".to_owned());
    args.push(script.to_owned());
    args.push(policy.to_owned());
    let ghost fixed = strings(args@);
    proof {
        assert(fixed =~= sandbox_args() + privilege_args(uid, gid) + seq![
            python@,
            "-I"@,
            "-u"@,
            "-c"@,
            script@,
            policy@,
        ]);
        assert(strings(models@).take(0) =~= Seq::empty());
        assert(fixed + strings(models@).take(0) =~= fixed);
    }
    let mut at: usize = 0;
    while at < models.len()
        invariant
            at <= models@.len(),
            strings(args@) == fixed + strings(models@).take(at as int),
        decreases models@.len() - at,
    {
        let ghost before = strings(args@);
        args.push(models[at].clone());
        proof {
            assert(strings(args@) =~= before.push(models@[at as int]@));
            assert(before.push(models@[at as int]@) =~= fixed + strings(models@).take(at + 1));
        }
        at = at + 1;
    }
    proof {
        assert(strings(models@).take(at as int) =~= strings(models@));
    }
    args
}

/// What one joint is told, as bit patterns.
#[derive(Debug, Clone, Copy, PartialEq, Eq, Structural)]
pub struct Target {
    pub position: u64,
    pub velocity: u64,
    pub torque_ff: u64,
    pub kp: u64,
    pub kd: u64,
}

/// What every joint is told.
pub struct CustomOutput {
    pub targets: Vec<Target>,
}

impl CustomOutput {
    pub fn copy(&self) -> (output: CustomOutput)
        ensures
            output.targets@ == self.targets@,
    {
        let mut targets: Vec<Target> = Vec::new();
        let mut at: usize = 0;
        while at < self.targets.len()
            invariant
                at <= self.targets@.len(),
                targets@ == self.targets@.take(at as int),
            decreases self.targets@.len() - at,
        {
            targets.push(self.targets[at]);
            at = at + 1;
        }
        CustomOutput { targets }
    }
}

/// What a policy says of one joint.
pub struct Named {
    pub name: String,
    pub target: Target,
}

/// An answer of a policy.
pub struct Reply {
    pub ok: bool,
    pub ready: bool,
    pub error: Option<String>,
    pub reason: Option<String>,
    pub targets: Option<Vec<Named>>,
}

/// What came back over the pipe.
pub enum Heard {
    Reply(Reply),
    WriteFailed(String),
    ReadFailed(String),
    TimedOut(u64),
    Exited,
    Garbled(String),
}

/// A policy that is loaded: what has been asked of it, and what it last said.
pub struct CustomPolicy {
    pub sequence: u64,
    pub failed: bool,
    pub needs_reset: bool,
    pub period_us: u64,
    pub elapsed_us: u64,
    pub last_output: Option<CustomOutput>,
}

/// What a policy has to be asked.
pub enum Ask {
    /// Nothing: its last answer still holds.
    Cached(CustomOutput),
    /// New targets, under this number.
    Step(u64),
}

/// What is said of a policy that can no longer be asked anything.
pub open spec fn lost(heard: Heard) -> Option<Seq<char>> {
    match heard {
        Heard::Reply(_) => None,
        Heard::WriteFailed(e) => Some("写入策略运行器失败："@ + e@),
        Heard::ReadFailed(e) => Some("读取策略运行器失败："@ + e@),
        Heard::TimedOut(ms) => Some("策略运行超过 "@ + decimal(ms as nat) + " ms 时限"@),
        Heard::Exited => Some("策略运行器已退出"@),
        Heard::Garbled(e) => Some("策略运行器返回无效数据："@ + e@),
    }
}

/// What a policy calls an answer that it could not give.
pub open spec fn complaint(reply: Reply) -> Seq<char> {
    match reply.error {
        Some(e) => e@,
        None => "策略运行失败"@,
    }
}

fn joined_text(a: &str, b: &str) -> (text: String)
    ensures
        text@ == a@ + b@,
{
    let mut text = String::new();
    push_text(&mut text, a);
    push_text(&mut text, b);
    proof {
        assert(text@ =~= a@ + b@);
    }
    text
}

/// The first target under a name, from one on.
pub open spec fn target_for(list: Seq<Named>, name: Seq<char>, from: int) -> Option<Target>
    decreases list.len() - from,
{
    if from < 0 || from >= list.len() {
        None
    } else if list[from].name@ == name {
        Some(list[from].target)
    } else {
        target_for(list, name, from + 1)
    }
}

fn find_target(list: &Vec<Named>, name: &str) -> (target: Option<Target>)
    ensures
        target == target_for(list@, name@, 0),
{
    let mut at: usize = 0;
    while at < list.len()
        invariant
            at <= list@.len(),
            target_for(list@, name@, 0) == target_for(list@, name@, at as int),
        decreases list@.len() - at,
    {
        if same_text(list[at].name.as_str(), name) {
            return Some(list[at].target);
        }
        at = at + 1;
    }
    None
}

/// What a joint is told: what the policy says of it. The mouth stays where it is.
pub open spec fn joint_target(list: Seq<Named>, name: Seq<char>, measured: u64) -> Option<Target> {
    if name == MOUTH@ {
        Some(Target { position: measured, velocity: 0, torque_ff: 0, kp: 0, kd: 0 })
    } else {
        target_for(list, name, 0)
    }
}

/// The first joint from one on that a policy says nothing of.
pub open spec fn missing_joint(list: Seq<Named>, joints: Seq<Seq<char>>, from: int) -> Option<Seq<char>>
    decreases joints.len() - from,
{
    if from < 0 || from >= joints.len() {
        None
    } else if joints[from] != MOUTH@ && target_for(list, joints[from], 0) is None {
        Some(joints[from])
    } else {
        missing_joint(list, joints, from + 1)
    }
}

/// What every joint is told, given what a policy says and where the joints are.
pub fn map_joints(list: &Vec<Named>, joints: &Vec<String>, measured: &Vec<u64>) -> (output: Result<
    CustomOutput,
    String,
>)
    requires
        measured@.len() == joints@.len(),
    ensures
        match output {
            Ok(o) => missing_joint(list@, strings(joints@), 0) is None && o.targets@.len()
                == joints@.len() && forall|i: int|
                0 <= i < joints@.len() ==> Some(#[trigger] o.targets@[i]) == joint_target(
                    list@,
                    joints@[i]@,
                    measured@[i],
                ),
            Err(why) => missing_joint(list@, strings(joints@), 0) matches Some(name) && why@
                == "策略缺少关节 "@ + name,
        },
{
    let mut targets: Vec<Target> = Vec::new();
    let mut at: usize = 0;
    while at < joints.len()
        invariant
            at <= joints@.len(),
            measured@.len() == joints@.len(),
            targets@.len() == at,
            missing_joint(list@, strings(joints@), 0) == missing_joint(
                list@,
                strings(joints@),
                at as int,
            ),
            forall|i: int|
                0 <= i < at ==> Some(#[trigger] targets@[i]) == joint_target(
                    list@,
                    joints@[i]@,
                    measured@[i],
                ),
        decreases joints@.len() - at,
    {
        proof {
            assert(strings(joints@)[at as int] == joints@[at as int]@);
        }
        if same_text(joints[at].as_str(), MOUTH) {
            targets.push(
                Target { position: measured[at], velocity: 0, torque_ff: 0, kp: 0, kd: 0 },
            );
        } else {
            match find_target(list, joints[at].as_str()) {
                Some(target) => {
                    targets.push(target);
                },
                None => {
                    return Err(joined_text("策略缺少关节 ", joints[at].as_str()));
                },
            }
        }
        at = at + 1;
    }
    Ok(CustomOutput { targets })
}

impl CustomPolicy {
    /// A policy that has just been started, with what it declared.
    pub fn new(contract: bool, period_us: Option<u64>) -> (policy: Result<CustomPolicy, String>)
        ensures
            match policy {
                Ok(p) => contract && period_us == Some(p.period_us) && p.sequence == 0 && !p.failed
                    && !p.needs_reset && p.elapsed_us == 0 && p.last_output is None,
                Err(why) => if !contract {
                    why@ == "策略运行器未返回接口契约"@
                } else {
                    period_us is None && why@ == "策略契约缺少 period_us"@
                },
            },
    {
        if !contract {
            return Err("策略运行器未返回接口契约".to_owned());
        }
        match period_us {
            Some(period_us) => Ok(
                CustomPolicy {
                    sequence: 0,
                    failed: false,
                    needs_reset: false,
                    period_us,
                    elapsed_us: 0,
                    last_output: None,
                },
            ),
            None => Err("策略契约缺少 period_us".to_owned()),
        }
    }

    /// Has the policy start afresh with its next frame.
    pub fn mark_reset(&mut self)
        ensures
            *final(self) == (CustomPolicy { needs_reset: true, ..*old(self) }),
    {
        self.needs_reset = true;
    }

    /// Whether the policy can be asked anything.
    pub fn check_alive(&self) -> (ok: Result<(), String>)
        ensures
            match ok {
                Ok(()) => !self.failed,
                Err(why) => self.failed && why@ == "策略运行器已失效，需重新初始化/使能"@,
            },
    {
        if self.failed {
            Err("策略运行器已失效，需重新初始化/使能".to_owned())
        } else {
            Ok(())
        }
    }

    /// Takes in what came back. A policy that says it could not do something has failed a frame; a
    /// pipe that broke, a deadline that passed or an answer that cannot be read has lost the
    /// policy for good, and the caller kills its process.
    pub fn hear(&mut self, heard: Heard) -> (reply: Result<Reply, String>)
        ensures
            *final(self) == (CustomPolicy {
                failed: old(self).failed || lost(heard) is Some,
                ..*old(self)
            }),
            match reply {
                Ok(r) => heard == Heard::Reply(r) && r.ok,
                Err(why) => match heard {
                    Heard::Reply(r) => !r.ok && why@ == complaint(r),
                    _ => lost(heard) == Some(why@),
                },
            },
    {
        match heard {
            Heard::Reply(reply) => {
                if reply.ok {
                    Ok(reply)
                } else {
                    match reply.error {
                        Some(e) => Err(e),
                        None => Err("策略运行失败".to_owned()),
                    }
                }
            },
            Heard::WriteFailed(e) => {
                self.failed = true;
                Err(joined_text("写入策略运行器失败：", e.as_str()))
            },
            Heard::ReadFailed(e) => {
                self.failed = true;
                Err(joined_text("读取策略运行器失败：", e.as_str()))
            },
            Heard::TimedOut(ms) => {
                self.failed = true;
                let mut why = String::new();
                push_text(&mut why, "策略运行超过 ");
                push_decimal(&mut why, ms);
                push_text(&mut why, " ms 时限");
                proof {
                    assert(why@ =~= "策略运行超过 "@ + decimal(ms as nat) + " ms 时限"@);
                }
                Err(why)
            },
            Heard::Exited => {
                self.failed = true;
                Err("策略运行器已退出".to_owned())
            },
            Heard::Garbled(e) => {
                self.failed = true;
                Err(joined_text("策略运行器返回无效数据：", e.as_str()))
            },
        }
    }

    /// A reset outside the control loop begins: everything starts from nothing.
    pub fn clear(&mut self)
        ensures
            *final(self) == (CustomPolicy {
                sequence: 0,
                elapsed_us: 0,
                last_output: None,
                ..*old(self)
            }),
    {
        self.sequence = 0;
        self.elapsed_us = 0;
        self.last_output = None;
    }

    /// Whether a frame has to reset the policy first. The frame that does is numbered zero.
    pub fn begin_reset(&mut self) -> (reset: bool)
        ensures
            reset == old(self).needs_reset,
            *final(self) == (CustomPolicy {
                sequence: if reset {
                    0
                } else {
                    old(self).sequence
                },
                ..*old(self)
            }),
    {
        if self.needs_reset {
            self.sequence = 0;
        }
        self.needs_reset
    }

    /// The policy has been reset: no earlier answer counts.
    pub fn was_reset(&mut self)
        ensures
            *final(self) == (CustomPolicy {
                needs_reset: false,
                elapsed_us: 0,
                last_output: None,
                ..*old(self)
            }),
    {
        self.needs_reset = false;
        self.elapsed_us = 0;
        self.last_output = None;
    }

    /// How much time has passed for a policy, once so much more has, as far as it can be counted.
    pub open spec fn passed(self, dt_us: u64) -> int {
        if self.elapsed_us + dt_us <= u64::MAX {
            self.elapsed_us + dt_us
        } else {
            u64::MAX as int
        }
    }

    /// What a policy has to be asked after so much time. It is asked at its own pace: between two
    /// of its frames its last answer holds.
    pub fn advance(&mut self, dt_us: u64) -> (ask: Ask)
        ensures
            if old(self).last_output is Some && old(self).passed(dt_us) < old(self).period_us {
                &&& ask matches Ask::Cached(o) && o.targets@ == old(self).last_output->0.targets@
                &&& *final(self) == (CustomPolicy {
                    elapsed_us: old(self).passed(dt_us) as u64,
                    ..*old(self)
                })
            } else {
                &&& ask == Ask::Step(final(self).sequence)
                &&& final(self).sequence == (if old(self).sequence == u64::MAX {
                    0
                } else {
                    old(self).sequence + 1
                })
                &&& final(self).elapsed_us == (if old(self).passed(dt_us) > old(self).period_us {
                    old(self).passed(dt_us) - old(self).period_us
                } else {
                    0
                })
                &&& *final(self) == (CustomPolicy {
                    sequence: final(self).sequence,
                    elapsed_us: final(self).elapsed_us,
                    ..*old(self)
                })
            },
    {
        let elapsed: u64 = if dt_us <= u64::MAX - self.elapsed_us {
            self.elapsed_us + dt_us
        } else {
            u64::MAX
        };
        self.elapsed_us = elapsed;
        match &self.last_output {
            Some(output) => {
                if elapsed < self.period_us {
                    return Ask::Cached(output.copy());
                }
            },
            None => {},
        }
        self.elapsed_us = if elapsed > self.period_us {
            elapsed - self.period_us
        } else {
            0
        };
        self.sequence = if self.sequence == u64::MAX {
            0
        } else {
            self.sequence + 1
        };
        Ask::Step(self.sequence)
    }

    /// Why an answer cannot be used.
    pub open spec fn unusable(reply: Reply, joints: Seq<Seq<char>>) -> Option<Seq<char>> {
        if !reply.ready {
            Some(
                match reply.reason {
                    Some(reason) => reason@,
                    None => "策略尚未就绪"@,
                },
            )
        } else {
            match reply.targets {
                None => Some("策略未返回电机目标"@),
                Some(list) => match missing_joint(list@, joints, 0) {
                    Some(name) => Some("策略缺少关节 "@ + name),
                    None => None,
                },
            }
        }
    }

    /// Takes an answer, and keeps it for as long as it holds.
    pub fn take(&mut self, reply: Reply, joints: &Vec<String>, measured: &Vec<u64>) -> (output: Result<
        CustomOutput,
        String,
    >)
        requires
            measured@.len() == joints@.len(),
        ensures
            match output {
                Err(why) => *final(self) == *old(self) && CustomPolicy::unusable(
                    reply,
                    strings(joints@),
                ) == Some(why@),
                Ok(o) => {
                    &&& CustomPolicy::unusable(reply, strings(joints@)) is None
                    &&& o.targets@.len() == joints@.len()
                    &&& forall|i: int|
                        0 <= i < joints@.len() ==> Some(#[trigger] o.targets@[i]) == joint_target(
                            reply.targets->0@,
                            joints@[i]@,
                            measured@[i],
                        )
                    &&& final(self).last_output matches Some(kept) && kept.targets@ == o.targets@
                    &&& *final(self) == (CustomPolicy {
                        last_output: final(self).last_output,
                        ..*old(self)
                    })
                },
            },
    {
        if !reply.ready {
            return match reply.reason {
                Some(reason) => Err(reason),
                None => Err("策略尚未就绪".to_owned()),
            };
        }
        match reply.targets {
            None => Err("策略未返回电机目标".to_owned()),
            Some(list) => match map_joints(&list, joints, measured) {
                Err(why) => Err(why),
                Ok(output) => {
                    self.last_output = Some(output.copy());
                    Ok(output)
                },
            },
        }
    }
}

/// No stale targets: the first frame after a reset is always asked for anew, whatever the policy
/// said before and however little time has passed.
pub proof fn a_reset_forgets_the_last_answer(before: CustomPolicy, after: CustomPolicy, dt_us: u64)
    requires
        after == (CustomPolicy {
            needs_reset: false,
            elapsed_us: 0,
            last_output: None,
            ..before
        }),
    ensures
        !(after.last_output is Some && after.passed(dt_us) < after.period_us),
{
}

/// A policy is first tried at what its network does: under the network's own name, sitting for the one
/// that sits and stands up, with a phase only for the pick, and never with the body posed.
pub proof fn what_a_policy_is_first_tried_at(net: Net)
    ensures
        net != Net::SitStand ==> PolicyContext::first(net).action == net.name(),
        PolicyContext::first(Net::SitStand).action == "sit"@,
        PolicyContext::first(net).phase is Some <==> net == Net::GroundPick,
        PolicyContext::first(Net::GroundPick).phase == Some((0u64, 1u64)),
        !PolicyContext::first(net).body_active,
{
}

/// A pair is tried with both its models, sitting and rising in both postures, a pick at two phases, and
/// everything else once.
pub proof fn what_a_policy_is_tried_with(nets: Seq<Net>)
    requires
        nets.len() > 0,
    ensures
        ({
            let plan = trial_plan(nets);
            &&& nets.len() == 2 ==> plan.len() == 2 && plan[0].0 == "walk"@ && plan[0].1.action == "walk"@
                && plan[1].0 == "stand"@ && plan[1].1.action == "stand"@
            &&& nets.len() != 2 ==> forall|i: int|
                0 <= i < plan.len() ==> (#[trigger] plan[i]).0 == "default"@
            &&& nets.len() != 2 && nets[0] == Net::SitStand ==> plan.len() == 2 && plan[0].1.action == "sit"@
                && plan[1].1.action == "rise"@
            &&& nets.len() != 2 && nets[0] == Net::GroundPick ==> plan.len() == 2 && plan[0].1.action
                == "ground_pick"@ && plan[1].1.action == "ground_pick"@ && plan[0].1.phase == Some((0u64, 1u64))
                && plan[1].1.phase == Some((1u64, 4u64))
            &&& nets.len() != 2 && nets[0] != Net::SitStand && nets[0] != Net::GroundPick ==> plan.len() == 1
                && plan[0].1 == PolicyContext::first(nets[0])
            &&& forall|i: int| 0 <= i < plan.len() ==> !(#[trigger] plan[i]).1.body_active
        }),
{
}

proof fn lemma_rounds(nets: Seq<Net>, n: nat, r: nat, i: int)
    requires
        r < n,
        0 <= i < trial_plan(nets).len(),
    ensures
        rounds(nets, n).len() == n * trial_plan(nets).len(),
        rounds(nets, n)[r * trial_plan(nets).len() + i] == RehearsalText::Step(
            trial_plan(nets)[i].0,
            trial_plan(nets)[i].1,
        ),
    decreases n,
{
    let k = trial_plan(nets).len();
    let before = rounds(nets, (n - 1) as nat);
    lemma_rounds_len(nets, n);
    lemma_rounds_len(nets, (n - 1) as nat);
    assert(n * k == (n - 1) * k + k) by (nonlinear_arith)
        requires
            n >= 1,
    ;
    assert(r * k >= 0) by (nonlinear_arith);
    if r < n - 1 {
        lemma_rounds(nets, (n - 1) as nat, r, i);
        assert(r * k + k <= (n - 1) * k) by (nonlinear_arith)
            requires
                r + 1 <= n - 1,
        ;
        assert(rounds(nets, n)[r * k + i] == before[r * k + i]);
    } else {
        assert(r * k == before.len());
        assert(rounds(nets, n)[r * k + i] == round(nets)[i]);
    }
}

proof fn lemma_rounds_len(nets: Seq<Net>, n: nat)
    ensures
        rounds(nets, n).len() == n * trial_plan(nets).len(),
    decreases n,
{
    let k = trial_plan(nets).len();
    if n > 0 {
        lemma_rounds_len(nets, (n - 1) as nat);
        assert(n * k == (n - 1) * k + k) by (nonlinear_arith)
            requires
                n >= 1,
        ;
    } else {
        assert(0 * k == 0) by (nonlinear_arith);
    }
}

/// Before it may drive, a policy is reset, run through all of its trials three times over, and reset
/// again.
pub proof fn a_policy_is_rehearsed_three_times(nets: Seq<Net>, r: nat, i: int)
    requires
        nets.len() > 0,
        r < 3,
        0 <= i < trial_plan(nets).len(),
    ensures
        ({
            let plan = rehearsal_plan(nets);
            let k = trial_plan(nets).len();
            &&& plan.len() == 3 * k + 2
            &&& plan[0] == RehearsalText::Reset(PolicyContext::first(nets[0]))
            &&& plan.last() == RehearsalText::Reset(PolicyContext::first(nets[0]))
            &&& plan[1 + r * k + i] == RehearsalText::Step(trial_plan(nets)[i].0, trial_plan(nets)[i].1)
        }),
{
    let k = trial_plan(nets).len();
    lemma_rounds(nets, 3, r, i);
    assert(0 <= r * k && r * k + i < 3 * k) by (nonlinear_arith)
        requires
            r < 3,
            0 <= i < k,
    ;
    let first = RehearsalText::Reset(PolicyContext::first(nets[0]));
    let all = rounds(nets, 3);
    assert((seq![first] + all)[1 + (r * k + i)] == all[r * k + i]);
    assert(rehearsal_plan(nets)[1 + r * k + i] == (seq![first] + all)[1 + r * k + i]);
}

/// The interpreter is the one named for policies, or else the one named for models, or else the installed
/// one, and the system's own only where there is none.
pub proof fn which_interpreter_runs(policy: Option<Seq<char>>, model: Option<Seq<char>>, installed: bool)
    ensures
        policy matches Some(path) ==> interpreter(policy, model, installed) == path,
        policy is None && model is Some ==> interpreter(policy, model, installed) == model->0,
        policy is None && model is None && installed ==> interpreter(policy, model, installed)
            == "/var/lib/robotd/model-python/bin/python"@,
        policy is None && model is None && !installed ==> interpreter(policy, model, installed)
            == "/usr/bin/python3"@,
{
}

/// A worker is shut in: no network and no other processes, nothing of the host to write to, no life
/// after its parent, another user's rights and no way to more; and only behind all that does its
/// interpreter start, with the policy and its models.
pub proof fn a_worker_is_shut_in(
    uid: u32,
    gid: u32,
    python: Seq<char>,
    script: Seq<char>,
    policy: Seq<char>,
    models: Seq<Seq<char>>,
)
    ensures
        ({
            let line = command_line(uid, gid, python, script, policy, models);
            &&& line[0] == "--die-with-parent"@ && line[1] == "--new-session"@
            &&& line[2] == "--unshare-net"@ && line[3] == "--unshare-pid"@ && line[4] == "--unshare-ipc"@
                && line[5] == "--unshare-uts"@
            &&& line[6] == "--ro-bind"@ && line[7] == "/"@ && line[8] == "/"@
            &&& line[9] == "--dev"@ && line[10] == "/dev"@ && line[11] == "--proc"@ && line[12] == "/proc"@
            &&& line[13] == "--tmpfs"@ && line[14] == "/tmp"@ && line[15] == "--tmpfs"@ && line[16] == "/run"@
            &&& line[17] == "--chdir"@ && line[18] == "/"@ && line[19] == "--"@
            &&& line[20] == "/usr/bin/setpriv"@
            &&& line[21] == "--reuid"@ && line[22] == decimal(uid as nat)
            &&& line[23] == "--regid"@ && line[24] == decimal(gid as nat)
            &&& line[25] == "--clear-groups"@ && line[26] == "--no-new-privs"@
            &&& line[27] == "--inh-caps=-all"@ && line[28] == "--ambient-caps=-all"@ && line[29]
                == "--bounding-set=-all"@
            &&& line[30] == python && line[31] == "-I"@ && line[32] == "-u"@ && line[33] == "-c"@
            &&& line[34] == script && line[35] == policy
            &&& line.skip(36) == models
        }),
{
    let line = command_line(uid, gid, python, script, policy, models);
    assert(line.skip(36) =~= models);
}

/// Only an answer keeps a policy: anything else that comes over the pipe has lost it.
pub proof fn what_loses_a_policy(heard: Heard)
    ensures
        lost(heard) is None <==> heard is Reply,
{
}

proof fn lemma_target_for(list: Seq<Named>, name: Seq<char>, from: int)
    requires
        0 <= from <= list.len(),
    ensures
        target_for(list, name, from) is Some <==> exists|i: int|
            from <= i < list.len() && (#[trigger] list[i]).name@ == name,
        target_for(list, name, from) matches Some(target) ==> exists|i: int|
            from <= i < list.len() && (#[trigger] list[i]).name@ == name && list[i].target == target && forall|j: int|
                from <= j < i ==> (#[trigger] list[j]).name@ != name,
    decreases list.len() - from,
{
    if from < list.len() && list[from].name@ != name {
        lemma_target_for(list, name, from + 1);
        if let Some(target) = target_for(list, name, from + 1) {
            let i = choose|i: int|
                from + 1 <= i < list.len() && (#[trigger] list[i]).name@ == name && list[i].target == target
                    && forall|j: int| from + 1 <= j < i ==> (#[trigger] list[j]).name@ != name;
            assert forall|j: int| from <= j < i implies (#[trigger] list[j]).name@ != name by {}
        }
    }
}

/// A joint is told what the policy says of it by name, the first time it does; only the mouth is told to
/// stay where it was measured, with no force behind it.
pub proof fn what_a_joint_is_told(list: Seq<Named>, name: Seq<char>, measured: u64)
    ensures
        name == "mouth"@ ==> joint_target(list, name, measured) == Some(
            Target { position: measured, velocity: 0, torque_ff: 0, kp: 0, kd: 0 },
        ),
        name != "mouth"@ ==> (joint_target(list, name, measured) is Some <==> exists|i: int|
            0 <= i < list.len() && (#[trigger] list[i]).name@ == name),
        name != "mouth"@ && joint_target(list, name, measured) is Some ==> exists|i: int|
            0 <= i < list.len() && (#[trigger] list[i]).name@ == name && list[i].target == joint_target(
                list,
                name,
                measured,
            )->0,
{
    lemma_target_for(list, name, 0);
}

proof fn lemma_missing(list: Seq<Named>, joints: Seq<Seq<char>>, from: int)
    requires
        0 <= from <= joints.len(),
    ensures
        missing_joint(list, joints, from) is None <==> forall|i: int|
            from <= i < joints.len() ==> (#[trigger] joints[i]) == "mouth"@ || target_for(list, joints[i], 0) is Some,
        missing_joint(list, joints, from) matches Some(name) ==> name != "mouth"@ && target_for(
            list,
            name,
            0,
        ) is None && joints.contains(name),
    decreases joints.len() - from,
{
    if from < joints.len() {
        if joints[from] != "mouth"@ && target_for(list, joints[from], 0) is None {
            assert(missing_joint(list, joints, from) == Some(joints[from]));
        } else {
            lemma_missing(list, joints, from + 1);
            if missing_joint(list, joints, from) is None {
                assert forall|i: int| from <= i < joints.len() implies (#[trigger] joints[i]) == "mouth"@
                    || target_for(list, joints[i], 0) is Some by {}
            }
        }
    }
}

/// An answer can be used where the policy is ready and says something of every joint but the mouth.
pub proof fn what_makes_an_answer_usable(reply: Reply, joints: Seq<Seq<char>>)
    ensures
        CustomPolicy::unusable(reply, joints) is None <==> reply.ready && (reply.targets matches Some(list)
            && forall|i: int|
            0 <= i < joints.len() ==> (#[trigger] joints[i]) == "mouth"@ || target_for(list@, joints[i], 0) is Some),
{
    if let Some(list) = reply.targets {
        lemma_missing(list@, joints, 0);
    }
}

/// Time adds up, as far as it can be counted.
pub proof fn time_adds_up(policy: CustomPolicy, dt_us: u64)
    ensures
        policy.elapsed_us + dt_us <= u64::MAX ==> policy.passed(dt_us) == policy.elapsed_us + dt_us,
        policy.elapsed_us + dt_us > u64::MAX ==> policy.passed(dt_us) == u64::MAX,
        policy.passed(dt_us) >= policy.elapsed_us,
{
}

/// A worker has eight seconds to start, two to reset and eighteen milliseconds for a frame; and it has
/// sixty-four files, sixteen processes, files of an eighth of a gibibyte and a gibibyte and a half of
/// memory.
pub proof fn what_a_worker_may_take()
    ensures
        START_MS == 8_000,
        RESET_MS == 2_000,
        STEP_MS == 18,
        WORKER_NOFILE_LIMIT == 64,
        WORKER_PROCESS_LIMIT == 16,
        WORKER_FILE_LIMIT == 128 * 1024 * 1024,
        WORKER_ADDRESS_SPACE_LIMIT == 1536 * 1024 * 1024,
{
}

} // verus!
