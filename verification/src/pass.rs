use vstd::prelude::*;

use crate::depth::{convention_name, DepthConvention};
use core::time::Duration;

verus! {

/// When in the frame a pass records: backgrounds first, overlays last.
#[derive(Copy, Clone, Debug, PartialEq, Eq, Structural, PartialOrd, Ord)]
pub enum PassStage {
    Background,
    Scene,
    Overlay,
}

pub open spec fn stage_rank(s: PassStage) -> int {
    match s {
        PassStage::Background => 0,
        PassStage::Scene => 1,
        PassStage::Overlay => 2,
    }
}

/// The stage's name, as `Debug` writes it.
pub open spec fn stage_name(s: PassStage) -> &'static str {
    match s {
        PassStage::Background => "Background",
        PassStage::Scene => "Scene",
        PassStage::Overlay => "Overlay",
    }
}

impl PassStage {
    /// `self` records no later than `other`.
    pub fn no_later_than(self, other: PassStage) -> (r: bool)
        ensures
            r == (stage_rank(self) <= stage_rank(other)),
    {
        match (self, other) {
            (PassStage::Background, _) => true,
            (PassStage::Scene, PassStage::Background) => false,
            (PassStage::Scene, _) => true,
            (PassStage::Overlay, PassStage::Overlay) => true,
            (PassStage::Overlay, _) => false,
        }
    }

    /// The stage's name, as `Debug` writes it.
    pub fn name(self) -> (r: &'static str)
        ensures
            r == stage_name(self),
    {
        match self {
            PassStage::Background => "Background",
            PassStage::Scene => "Scene",
            PassStage::Overlay => "Overlay",
        }
    }
}

/// The part of a pass's life in which it failed.
#[derive(Copy, Clone, Debug, PartialEq, Eq, Structural)]
pub enum PassPhase {
    Attach,
    Record,
}

pub open spec fn phase_label(p: PassPhase) -> &'static str {
    match p {
        PassPhase::Attach => "attach",
        PassPhase::Record => "record",
    }
}

impl PassPhase {
    /// The phase as its `Display` writes it.
    pub fn label(self) -> (r: &'static str)
        ensures
            r == phase_label(self),
    {
        match self {
            Self::Attach => "attach",
            Self::Record => "record",
        }
    }
}

/// Whether a pass keeps or clears the shared color target.
#[derive(Copy, Clone, Debug, PartialEq, Eq, Structural)]
pub enum ColorLoad {
    Load,
    Clear,
}

/// Why a pass was refused at registration.
#[derive(Clone, Debug, PartialEq, Eq)]
pub enum PassError {
    DepthConvention { pass: &'static str, declared: DepthConvention, frame: DepthConvention },
    DepthRead { pass: &'static str, declared: DepthConvention, frame: DepthConvention },
    ColorClear { pass: &'static str, stage: PassStage },
}

/// The refusal in words, as its `Display` writes it.
pub open spec fn pass_error_text(e: PassError) -> Seq<char> {
    match e {
        PassError::DepthConvention { pass, declared, frame } => "pass `"@ + pass@
            + "` writes depth under "@ + convention_name(declared)@
            + "; this frame compares under "@ + convention_name(frame)@,
        PassError::DepthRead { pass, declared, frame } => "pass `"@ + pass@
            + "` reads depth under "@ + convention_name(declared)@
            + "; this frame compares under "@ + convention_name(frame)@,
        PassError::ColorClear { pass, stage } => "pass `"@ + pass@
            + "` clears the shared color target in the "@ + stage_name(stage)@
            + " stage; only "@ + stage_name(PassStage::Background)@ + " clears it"@,
    }
}

impl PassError {
    /// The refusal in words, as its `Display` writes it.
    pub fn message(&self) -> (r: String)
        ensures
            r@ == pass_error_text(*self),
    {
        match self {
            PassError::DepthConvention { pass, declared, frame } => {
                let mut s = String::from_str("pass `");
                s.append(pass);
                s.append("` writes depth under ");
                s.append(declared.name());
                s.append("; this frame compares under ");
                s.append(frame.name());
                s
            },
            PassError::DepthRead { pass, declared, frame } => {
                let mut s = String::from_str("pass `");
                s.append(pass);
                s.append("` reads depth under ");
                s.append(declared.name());
                s.append("; this frame compares under ");
                s.append(frame.name());
                s
            },
            PassError::ColorClear { pass, stage } => {
                let mut s = String::from_str("pass `");
                s.append(pass);
                s.append("` clears the shared color target in the ");
                s.append(stage.name());
                s.append(" stage; only ");
                s.append(PassStage::Background.name());
                s.append(" clears it");
                s
            },
        }
    }
}

/// Why running the frame's passes stopped. `source` is the failure's full
/// chain of causes in words.
#[derive(Clone, Debug, PartialEq, Eq)]
pub enum PassExecutionError {
    Pass { pass: &'static str, phase: PassPhase, source: String },
    Backend { source: String },
}

/// The failure in words, as its `Display` writes it.
pub open spec fn pass_execution_error_text(e: PassExecutionError) -> Seq<char> {
    match e {
        PassExecutionError::Pass { pass, phase, source } => "pass `"@ + pass@ + "` failed during "@
            + phase_label(phase)@ + ": "@ + source@,
        PassExecutionError::Backend { source } => "GPU work outside a pass failed: "@ + source@,
    }
}

impl PassExecutionError {
    /// The failure in words, as its `Display` writes it.
    pub fn message(&self) -> (r: String)
        ensures
            r@ == pass_execution_error_text(*self),
    {
        match self {
            PassExecutionError::Pass { pass, phase, source } => {
                let mut s = String::from_str("pass `");
                s.append(pass);
                s.append("` failed during ");
                s.append(phase.label());
                s.append(": ");
                s.append(source.as_str());
                s
            },
            PassExecutionError::Backend { source } => {
                let mut s = String::from_str("GPU work outside a pass failed: ");
                s.append(source.as_str());
                s
            },
        }
    }
}

/// Before a pass runs: a device error already pending belongs to no pass and
/// stops the run.
pub fn check_backend(pending: Option<String>) -> (r: Result<(), PassExecutionError>)
    ensures
        match pending {
            Some(source) => r == Err::<(), PassExecutionError>(PassExecutionError::Backend { source }),
            None => r is Ok,
        },
{
    match pending {
        Some(source) => Err(PassExecutionError::Backend { source }),
        None => Ok(()),
    }
}

/// After a pass ran: a device error raised meanwhile is charged to the pass
/// before its own outcome; otherwise its own failure is.
pub fn settle_pass<T>(
    pass: &'static str,
    phase: PassPhase,
    pending: Option<String>,
    outcome: Result<T, String>,
) -> (r: Result<T, PassExecutionError>)
    ensures
        match (pending, outcome) {
            (Some(source), _) => r == Err::<T, PassExecutionError>(
                PassExecutionError::Pass { pass, phase, source },
            ),
            (None, Err(source)) => r == Err::<T, PassExecutionError>(
                PassExecutionError::Pass { pass, phase, source },
            ),
            (None, Ok(v)) => r == Ok::<T, PassExecutionError>(v),
        },
{
    match pending {
        Some(source) => Err(PassExecutionError::Pass { pass, phase, source }),
        None => match outcome {
            Ok(v) => Ok(v),
            Err(source) => Err(PassExecutionError::Pass { pass, phase, source }),
        },
    }
}

/// GPU time of a section.
#[derive(Copy, Clone, Debug, PartialEq, Eq)]
pub enum GpuTime {
    /// No timer, no free slot, or no result mapped yet; `Measured` can hold zero for a trivial pass.
    Unavailable,
    Measured(Duration),
}

/// One timed section of a frame.
#[derive(Copy, Clone, Debug, PartialEq, Eq)]
pub struct Section {
    pub name: &'static str,
    /// Time spent recording the section into the encoder, not running it.
    pub cpu: Duration,
    pub gpu: GpuTime,
}

/// What a pass declares about itself at registration.
#[derive(Copy, Clone, Debug, PartialEq, Eq)]
pub struct PassDecl {
    pub name: &'static str,
    pub stage: PassStage,
    pub color_load: ColorLoad,
    /// `None` means the pass writes no depth.
    pub depth_convention: Option<DepthConvention>,
    pub depth_read: Option<DepthConvention>,
}

/// The refusal, if any, that registering a pass of `decl` under `frame` meets.
pub open spec fn registration_refusal(frame: DepthConvention, decl: PassDecl) -> Option<PassError> {
    if decl.depth_convention is Some && decl.depth_convention.unwrap() != frame {
        Some(
            PassError::DepthConvention {
                pass: decl.name,
                declared: decl.depth_convention.unwrap(),
                frame,
            },
        )
    } else if decl.depth_read is Some && decl.depth_read.unwrap() != frame {
        Some(PassError::DepthRead { pass: decl.name, declared: decl.depth_read.unwrap(), frame })
    } else if decl.color_load == ColorLoad::Clear && decl.stage != PassStage::Background {
        Some(PassError::ColorClear { pass: decl.name, stage: decl.stage })
    } else {
        None
    }
}

/// Only a Background pass may clear the shared color target: a pass that
/// registration admits either loads the color target or is a Background pass.
pub proof fn lemma_only_background_clears(frame: DepthConvention, decl: PassDecl)
    ensures
        registration_refusal(frame, decl) is None ==> decl.color_load == ColorLoad::Load || decl.stage
            == PassStage::Background,
{
}

/// A pass whose depth declarations suit the frame, and that clears the color
/// target outside the Background stage, is refused for that clear, naming the
/// pass and its stage.
pub proof fn lemma_clear_outside_background_refused(frame: DepthConvention, decl: PassDecl)
    requires
        decl.depth_convention is None || decl.depth_convention == Some(frame),
        decl.depth_read is None || decl.depth_read == Some(frame),
        decl.color_load == ColorLoad::Clear,
        decl.stage == PassStage::Scene || decl.stage == PassStage::Overlay,
    ensures
        registration_refusal(frame, decl) == Some(PassError::ColorClear { pass: decl.name, stage: decl.stage }),
{
}

/// A pass whose depth declarations suit the frame and that loads the color
/// target, or clears it as a Background pass, is admitted.
pub proof fn lemma_suitable_pass_admitted(frame: DepthConvention, decl: PassDecl)
    requires
        decl.depth_convention is None || decl.depth_convention == Some(frame),
        decl.depth_read is None || decl.depth_read == Some(frame),
        decl.color_load == ColorLoad::Load || decl.stage == PassStage::Background,
    ensures
        registration_refusal(frame, decl) is None,
{
}

/// Stages never decrease along the sequence.
pub open spec fn stages_ordered(s: Seq<PassStage>) -> bool {
    forall|a: int, b: int| 0 <= a <= b < s.len() ==> stage_rank(#[trigger] s[a]) <= stage_rank(#[trigger] s[b])
}

/// The number of leading stages at or before `stage`.
pub open spec fn insertion_point(s: Seq<PassStage>, stage: PassStage) -> int
    decreases s.len(),
{
    if s.len() == 0 {
        0
    } else if stage_rank(s[0]) <= stage_rank(stage) {
        1 + insertion_point(s.drop_first(), stage)
    } else {
        0
    }
}

/// The frame's passes in recording order: by stage, then by registration.
pub struct PassSchedule<P> {
    convention: DepthConvention,
    passes: Vec<P>,
    stages: Vec<PassStage>,
    names: Vec<&'static str>,
    unattached: Option<&'static str>,
}

impl<P> PassSchedule<P> {
    pub closed spec fn wf(&self) -> bool {
        &&& self.passes@.len() == self.stages@.len()
        &&& self.names@.len() == self.stages@.len()
        &&& stages_ordered(self.stages@)
    }

    /// Stage of each held pass, in recording order.
    pub closed spec fn stage_seq(&self) -> Seq<PassStage> {
        self.stages@
    }

    /// Name of each held pass, in recording order.
    pub closed spec fn name_seq(&self) -> Seq<&'static str> {
        self.names@
    }

    /// The held passes, in recording order.
    pub closed spec fn pass_seq(&self) -> Seq<P> {
        self.passes@
    }

    pub closed spec fn spec_convention(&self) -> DepthConvention {
        self.convention
    }

    pub closed spec fn spec_unattached(&self) -> Option<&'static str> {
        self.unattached
    }

    pub fn new(convention: DepthConvention) -> (r: Self)
        ensures
            r.wf(),
            stages_ordered(r.stage_seq()),
            r.spec_convention() == convention,
            r.stage_seq() == Seq::<PassStage>::empty(),
            r.name_seq() == Seq::<&'static str>::empty(),
            r.pass_seq() == Seq::<P>::empty(),
            r.spec_unattached() is None,
    {
        Self {
            convention,
            passes: Vec::new(),
            stages: Vec::new(),
            names: Vec::new(),
            unattached: None,
        }
    }

    pub fn convention(&self) -> (r: DepthConvention)
        ensures
            r == self.spec_convention(),
    {
        self.convention
    }

    /// The pass whose attach failed last, until an attach succeeds.
    pub fn unattached(&self) -> (r: Option<&'static str>)
        ensures
            r == self.spec_unattached(),
    {
        self.unattached
    }

    /// Records the outcome of attaching every pass: the first that failed, or none.
    pub fn set_unattached(&mut self, failed: Option<&'static str>)
        requires
            old(self).wf(),
        ensures
            final(self).wf(),
            final(self).spec_unattached() == failed,
            final(self).stage_seq() == old(self).stage_seq(),
            final(self).name_seq() == old(self).name_seq(),
            final(self).pass_seq() == old(self).pass_seq(),
            final(self).spec_convention() == old(self).spec_convention(),
    {
        self.unattached = failed;
    }

    /// Names of the held passes, in recording order.
    pub fn names(&self) -> (r: &[&'static str])
        ensures
            r@ == self.name_seq(),
    {
        self.names.as_slice()
    }

    pub fn len(&self) -> (r: usize)
        requires
            self.wf(),
        ensures
            r == self.stage_seq().len(),
    {
        self.passes.len()
    }

    pub fn stage_at(&self, i: usize) -> (r: PassStage)
        requires
            self.wf(),
            i < self.stage_seq().len(),
        ensures
            r == self.stage_seq()[i as int],
    {
        self.stages[i]
    }

    pub fn pass_at(&mut self, i: usize) -> (r: &mut P)
        requires
            old(self).wf(),
            i < old(self).stage_seq().len(),
        ensures
            *r == old(self).pass_seq()[i as int],
            final(self).pass_seq() == old(self).pass_seq().update(i as int, *final(r)),
            final(self).stage_seq() == old(self).stage_seq(),
            final(self).name_seq() == old(self).name_seq(),
            final(self).spec_unattached() == old(self).spec_unattached(),
            final(self).spec_convention() == old(self).spec_convention(),
            final(self).wf(),
    {
        &mut self.passes[i]
    }

    /// The positions `lo..hi` of the held passes that record in `stage`:
    /// exactly those, since the schedule keeps stages in order.
    pub fn stage_span(&self, stage: PassStage) -> (r: (usize, usize))
        requires
            self.wf(),
        ensures
            r.0 <= r.1 <= self.stage_seq().len(),
            forall|i: int|
                0 <= i < self.stage_seq().len() ==> ((r.0 <= i < r.1) <==> #[trigger] self.stage_seq()[i]
                    == stage),
    {
        let mut lo: usize = 0;
        while lo < self.stages.len() && self.stages[lo] != stage && self.stages[lo].no_later_than(stage)
            invariant
                self.wf(),
                lo <= self.stages@.len(),
                forall|q: int| 0 <= q < lo ==> stage_rank(#[trigger] self.stages@[q]) < stage_rank(stage),
            decreases self.stages@.len() - lo,
        {
            lo = lo + 1;
        }
        let mut hi: usize = lo;
        while hi < self.stages.len() && self.stages[hi] == stage
            invariant
                self.wf(),
                lo <= hi <= self.stages@.len(),
                forall|q: int| 0 <= q < lo ==> stage_rank(#[trigger] self.stages@[q]) < stage_rank(stage),
                forall|q: int| lo <= q < hi ==> #[trigger] self.stages@[q] == stage,
            decreases self.stages@.len() - hi,
        {
            hi = hi + 1;
        }
        proof {
            assert forall|i: int| 0 <= i < self.stages@.len() implies ((lo <= i < hi) <==> #[trigger] self.stages@[i]
                == stage) by {
                if i >= hi {
                    assert(hi < self.stages@.len());
                    assert(self.stages@[hi as int] != stage);
                    assert(stage_rank(self.stages@[hi as int]) <= stage_rank(self.stages@[i]));
                    if hi == lo {
                        assert(stage_rank(self.stages@[hi as int]) > stage_rank(stage));
                    } else {
                        assert(self.stages@[lo as int] == stage);
                        assert(stage_rank(self.stages@[lo as int]) <= stage_rank(self.stages@[hi as int]));
                    }
                }
            }
        }
        (lo, hi)
    }

    /// Admits a pass after the passes of its own and earlier stages, or
    /// refuses it, unchanged: one whose depth writes or reads use the other
    /// convention, or one outside the background stage that clears color.
    pub fn register(&mut self, pass: P, decl: PassDecl) -> (r: Result<(), PassError>)
        requires
            old(self).wf(),
        ensures
            final(self).wf(),
            stages_ordered(final(self).stage_seq()),
            registration_refusal(old(self).spec_convention(), decl) is None ==> {
                let at = insertion_point(old(self).stage_seq(), decl.stage);
                &&& forall|q: int|
                    0 <= q < at ==> stage_rank(#[trigger] old(self).stage_seq()[q]) <= stage_rank(decl.stage)
                &&& forall|q: int|
                    at <= q < old(self).stage_seq().len() ==> stage_rank(#[trigger] old(self).stage_seq()[q])
                        > stage_rank(decl.stage)
            },
            final(self).spec_convention() == old(self).spec_convention(),
            final(self).spec_unattached() == old(self).spec_unattached(),
            r is Ok ==> decl.color_load == ColorLoad::Load || decl.stage == PassStage::Background,
            registration_refusal(old(self).spec_convention(), decl) matches Some(e) ==> r == Err::<
                (),
                PassError,
            >(e) && final(self).stage_seq() == old(self).stage_seq() && final(self).name_seq()
                == old(self).name_seq() && final(self).pass_seq() == old(self).pass_seq(),
            registration_refusal(old(self).spec_convention(), decl) is None ==> {
                let at = insertion_point(old(self).stage_seq(), decl.stage);
                &&& r is Ok
                &&& final(self).stage_seq() == old(self).stage_seq().insert(at, decl.stage)
                &&& final(self).name_seq() == old(self).name_seq().insert(at, decl.name)
                &&& final(self).pass_seq() == old(self).pass_seq().insert(at, pass)
            },
    {
        if let Some(declared) = decl.depth_convention {
            if declared != self.convention {
                return Err(
                    PassError::DepthConvention { pass: decl.name, declared, frame: self.convention },
                );
            }
        }
        if let Some(declared) = decl.depth_read {
            if declared != self.convention {
                return Err(PassError::DepthRead { pass: decl.name, declared, frame: self.convention });
            }
        }
        if decl.color_load == ColorLoad::Clear && decl.stage != PassStage::Background {
            return Err(PassError::ColorClear { pass: decl.name, stage: decl.stage });
        }
        let mut at: usize = 0;
        while at < self.stages.len() && self.stages[at].no_later_than(decl.stage)
            invariant
                self.wf(),
                at <= self.stages@.len(),
                forall|q: int| 0 <= q < at ==> stage_rank(#[trigger] self.stages@[q]) <= stage_rank(
                    decl.stage,
                ),
                self.stages@ == old(self).stages@,
            decreases self.stages@.len() - at,
        {
            at = at + 1;
        }
        proof {
            lemma_insertion_point(self.stages@, decl.stage, at as int);
        }
        let ghost before = self.stages@;
        self.passes.insert(at, pass);
        self.stages.insert(at, decl.stage);
        self.names.insert(at, decl.name);
        proof {
            assert forall|a: int, b: int| 0 <= a <= b < self.stages@.len() implies stage_rank(
                #[trigger] self.stages@[a],
            ) <= stage_rank(#[trigger] self.stages@[b]) by {
                if a < at && b > at {
                    assert(self.stages@[b] == before[b - 1]);
                } else if a == at && b > at {
                    assert(self.stages@[b] == before[b - 1]);
                    assert(stage_rank(before[at as int]) > stage_rank(decl.stage));
                    assert(stages_ordered(before));
                    assert(stage_rank(before[at as int]) <= stage_rank(before[b - 1]));
                } else if a > at {
                    assert(self.stages@[a] == before[a - 1]);
                    assert(self.stages@[b] == before[b - 1]);
                }
            }
        }
        Ok(())
    }
}

impl<P> PassSchedule<P> {
    /// The held passes are in stage order.
    pub proof fn lemma_stages_ordered(&self)
        requires
            self.wf(),
        ensures
            stages_ordered(self.stage_seq()),
    {
    }
}

/// In an ordered sequence, the first position whose stage is later than
/// `stage` is the insertion point.
proof fn lemma_insertion_point(s: Seq<PassStage>, stage: PassStage, at: int)
    requires
        stages_ordered(s),
        0 <= at <= s.len(),
        forall|q: int| 0 <= q < at ==> stage_rank(#[trigger] s[q]) <= stage_rank(stage),
        at < s.len() ==> stage_rank(s[at]) > stage_rank(stage),
    ensures
        insertion_point(s, stage) == at,
        at < s.len() ==> stage_rank(s[at]) > stage_rank(stage),
    decreases s.len(),
{
    if s.len() == 0 {
    } else if at == 0 {
    } else {
        let t = s.drop_first();
        assert(stages_ordered(t)) by {
            assert forall|a: int, b: int| 0 <= a <= b < t.len() implies stage_rank(#[trigger] t[a])
                <= stage_rank(#[trigger] t[b]) by {
                assert(t[a] == s[a + 1]);
                assert(t[b] == s[b + 1]);
            }
        }
        assert forall|q: int| 0 <= q < at - 1 implies stage_rank(#[trigger] t[q]) <= stage_rank(stage) by {
            assert(t[q] == s[q + 1]);
        }
        if at < s.len() {
            assert(t[at - 1] == s[at]);
        }
        lemma_insertion_point(t, stage, at - 1);
    }
}

/// A registered pass records after every pass of its own or an earlier stage
/// and before every pass of a later stage, wherever it was registered.
pub proof fn lemma_registered_pass_position(s: Seq<PassStage>, stage: PassStage)
    requires
        stages_ordered(s),
    ensures
        0 <= insertion_point(s, stage) <= s.len(),
        stages_ordered(s.insert(insertion_point(s, stage), stage)),
        forall|q: int|
            0 <= q < insertion_point(s, stage) ==> stage_rank(#[trigger] s[q]) <= stage_rank(stage),
        forall|q: int|
            insertion_point(s, stage) <= q < s.len() ==> stage_rank(#[trigger] s[q]) > stage_rank(
                stage,
            ),
    decreases s.len(),
{
    if s.len() == 0 {
        assert(s.insert(0, stage) =~= seq![stage]);
    } else if stage_rank(s[0]) <= stage_rank(stage) {
        let t = s.drop_first();
        assert(stages_ordered(t)) by {
            assert forall|a: int, b: int| 0 <= a <= b < t.len() implies stage_rank(#[trigger] t[a])
                <= stage_rank(#[trigger] t[b]) by {
                assert(t[a] == s[a + 1]);
                assert(t[b] == s[b + 1]);
            }
        }
        lemma_registered_pass_position(t, stage);
        let at = insertion_point(s, stage);
        assert forall|q: int| 0 <= q < at implies stage_rank(#[trigger] s[q]) <= stage_rank(stage) by {
            if q > 0 {
                assert(s[q] == t[q - 1]);
            }
        }
        assert forall|q: int| at <= q < s.len() implies stage_rank(#[trigger] s[q]) > stage_rank(stage) by {
            assert(s[q] == t[q - 1]);
        }
        let u = s.insert(at, stage);
        assert forall|a: int, b: int| 0 <= a <= b < u.len() implies stage_rank(#[trigger] u[a])
            <= stage_rank(#[trigger] u[b]) by {
            if a < at && b > at {
                assert(u[b] == s[b - 1]);
            } else if a == at && b > at {
                assert(u[b] == s[b - 1]);
            } else if a > at {
                assert(u[a] == s[a - 1]);
                assert(u[b] == s[b - 1]);
            }
        }
    } else {
        assert forall|q: int| 0 <= q < s.len() implies stage_rank(#[trigger] s[q]) > stage_rank(stage) by {
            assert(stage_rank(s[0]) <= stage_rank(s[q]));
        }
        let u = s.insert(0, stage);
        assert forall|a: int, b: int| 0 <= a <= b < u.len() implies stage_rank(#[trigger] u[a])
            <= stage_rank(#[trigger] u[b]) by {
            if a > 0 {
                assert(u[a] == s[a - 1]);
            }
            if b > 0 {
                assert(u[b] == s[b - 1]);
            }
        }
    }
}

} // verus!
