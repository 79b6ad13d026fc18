//! Reading what a frame or a sound contains.
//!
//! The reading itself is the Python runtime's, reached by the daemon; what
//! is here is where it is looked for and what a failure says.
use vstd::prelude::*;
use crate::text::{append, find_text, first_index, join_path, joined, last_line, last_said, owned};

verus! {

/// Why a perception could not be made.
#[derive(Debug, Clone, PartialEq, Eq)]
pub enum PerceptionError {
    /// The model is not on this machine. Its own case, because it is the one
    /// a person can do something about.
    NoModel { what: String, hint: String },
    Failed(String),
}

impl PerceptionError {
    /// The sentence a person reads.
    pub fn message(&self) -> (s: String)
        ensures
            s@ == match self {
                PerceptionError::NoModel { what, hint } => "no model for "@ + what@ + ": "@ + hint@,
                PerceptionError::Failed(why) => why@,
            },
    {
        match self {
            PerceptionError::NoModel { what, hint } => {
                let mut s = owned("no model for ");
                append(&mut s, what.as_str());
                append(&mut s, ": ");
                append(&mut s, hint.as_str());
                s
            }
            PerceptionError::Failed(why) => why.clone(),
        }
    }
}

/// Perception through the Python runtime.
#[derive(Debug, Clone, PartialEq, Eq)]
pub struct Local {
    /// The folder models are looked for in, and downloaded into on first
    /// run.
    pub models: String,
    /// The interpreter, which is the workspace's if it has one.
    pub python: String,
}

impl Local {
    pub fn new(models: String, python: String) -> (l: Local)
        ensures
            l.models@ == models@,
            l.python@ == python@,
    {
        Local { models, python }
    }

    /// Where the engine's Python helper is: in the models folder.
    pub fn driver(&self) -> (p: String)
        ensures
            p@ == joined(self.models@, "perceive.py"@),
    {
        join_path(self.models.as_str(), "perceive.py")
    }

    /// What asking for `task` says when the helper is not there: which
    /// folder it was looked for in, and that it arrives on first run.
    pub fn no_helper(&self, task: &str) -> (e: PerceptionError)
        ensures
            e matches PerceptionError::NoModel { what, hint } && what@ == task@
                && hint@ == "the perception helper is not in "@ + self.models@ + ". It is fetched on first run, which needs the network once."@,
    {
        let mut hint = owned("the perception helper is not in ");
        append(&mut hint, self.models.as_str());
        append(&mut hint, ". It is fetched on first run, which needs the network once.");
        PerceptionError::NoModel { what: owned(task), hint }
    }

    /// What asking for `task` says when the helper ran and failed: the last
    /// thing it wrote that is not blank. A missing model is a different
    /// thing from a broken one, and the difference is what the panel offers
    /// to do about it.
    pub fn failed(task: &str, stderr: &str) -> (e: PerceptionError)
        ensures
            ({
                let why = match last_said(stderr@) { Some(l) => l, None => "the helper failed with no message"@ };
                if first_index(why, "ModuleNotFoundError"@) is Some || first_index(why, "No such file"@) is Some {
                    e matches PerceptionError::NoModel { what, hint } && what@ == task@ && hint@ == why
                } else {
                    e matches PerceptionError::Failed(m) && m@ == why
                }
            }),
    {
        let why = match last_line(stderr) {
            Some(l) => l,
            None => owned("the helper failed with no message"),
        };
        if find_text(why.as_str(), "ModuleNotFoundError").is_some() || find_text(why.as_str(), "No such file").is_some() {
            PerceptionError::NoModel { what: owned(task), hint: why }
        } else {
            PerceptionError::Failed(why)
        }
    }
}

} // verus!

verus! {

/// What a value on a port is, by its flow type's name: `text`, `data`,
/// `file`, `image`, `audio`, or `any` for a port that produced nothing.
pub fn flow_name(t: crate::run::graph::PortType) -> (s: &'static str)
    ensures
        s@ == flow_name_of(t),
{
    match t {
        crate::run::graph::PortType::Text => "text",
        crate::run::graph::PortType::Data => "data",
        crate::run::graph::PortType::File => "file",
        crate::run::graph::PortType::Image => "image",
        crate::run::graph::PortType::Audio => "audio",
        crate::run::graph::PortType::Stream => "stream",
        crate::run::graph::PortType::Tools => "tools",
        crate::run::graph::PortType::Memory => "memory",
        crate::run::graph::PortType::Exec => "exec",
        crate::run::graph::PortType::Any => "any",
    }
}

pub open spec fn flow_name_of(t: crate::run::graph::PortType) -> Seq<char> {
    match t {
        crate::run::graph::PortType::Text => "text"@,
        crate::run::graph::PortType::Data => "data"@,
        crate::run::graph::PortType::File => "file"@,
        crate::run::graph::PortType::Image => "image"@,
        crate::run::graph::PortType::Audio => "audio"@,
        crate::run::graph::PortType::Stream => "stream"@,
        crate::run::graph::PortType::Tools => "tools"@,
        crate::run::graph::PortType::Memory => "memory"@,
        crate::run::graph::PortType::Exec => "exec"@,
        crate::run::graph::PortType::Any => "any"@,
    }
}

/// What reached a perception block's ports: the flow type of what is on
/// `image` and on `audio`, and the text of what is on `text`, each absent
/// when nothing is wired there.
pub struct PortsView {
    pub image: Option<crate::run::graph::PortType>,
    pub audio: Option<crate::run::graph::PortType>,
    pub text: Option<String>,
}

/// A perception block's settings that decide what is asked. Its threshold
/// is a fraction, read by the daemon.
pub struct SettingsView {
    pub model: Option<String>,
    pub voice: Option<String>,
    pub labels: Vec<String>,
}

/// What the perception helper is asked to do.
pub enum PerceptionJob {
    /// Find objects in the frame on `image`, with this model.
    Detect { model: String },
    /// Say whose face is in the frame on `image`.
    Recognise,
    /// Write down the speech on `audio`, with this model.
    Transcribe { model: String },
    /// Say this text aloud, in this voice.
    Speak { text: String, voice: String },
    /// Put this text under one of these labels.
    Classify { text: String, labels: Vec<String> },
    /// Read the mood of this text.
    Affect { text: String },
    /// Turn this text into a vector, with this model.
    Embed { text: String, model: String },
}

/// A perception job as the contracts see it: which job (in the order of the
/// variants), its text, its model or voice, and its labels.
pub open spec fn job_view(j: PerceptionJob) -> (nat, Seq<char>, Seq<char>, Seq<Seq<char>>) {
    match j {
        PerceptionJob::Detect { model } => (0, seq![], model@, seq![]),
        PerceptionJob::Recognise => (1, seq![], seq![], seq![]),
        PerceptionJob::Transcribe { model } => (2, seq![], model@, seq![]),
        PerceptionJob::Speak { text, voice } => (3, text@, voice@, seq![]),
        PerceptionJob::Classify { text, labels } => (4, text@, seq![], crate::text::views(labels@)),
        PerceptionJob::Affect { text } => (5, text@, seq![], seq![]),
        PerceptionJob::Embed { text, model } => (6, text@, model@, seq![]),
    }
}

pub open spec fn or_empty(o: Option<String>) -> Seq<char> {
    match o {
        Some(s) => s@,
        None => seq![],
    }
}

/// A frame on `image`, or why there is none.
pub open spec fn image_check(image: Option<crate::run::graph::PortType>) -> Option<Seq<char>> {
    match image {
        Some(crate::run::graph::PortType::Image) => None,
        Some(t) => Some("the image port was given "@ + flow_name_of(t) + ", which is not a frame"@),
        None => Some("nothing is wired to the image port"@),
    }
}

pub open spec fn text_check(text: Option<String>) -> Option<Seq<char>> {
    match text {
        Some(_) => None,
        None => Some("nothing is wired to the text port"@),
    }
}

pub open spec fn text_job(kind: Seq<char>) -> Option<nat> {
    if kind == "textToSpeech"@ || kind == "text-to-speech"@ {
        Some(3)
    } else if kind == "classifier"@ {
        Some(4)
    } else if kind == "affect"@ {
        Some(5)
    } else if kind == "embedding"@ {
        Some(6)
    } else {
        None
    }
}

/// What a perception block of this kind asks, given what reached its ports
/// and its settings: a detection and a recognition need a frame on `image`,
/// a transcription needs sound on `audio`, and the rest need text.
pub open spec fn perception_job_of(kind: Seq<char>, inputs: PortsView, settings: SettingsView)
    -> Result<(nat, Seq<char>, Seq<char>, Seq<Seq<char>>), Seq<char>>
{
    if kind == "objectDetection"@ || kind == "object-detection"@ || kind == "face-recognition"@ {
        match image_check(inputs.image) {
            Some(e) => Err(e),
            None => if kind == "face-recognition"@ {
                Ok((1, seq![], seq![], seq![]))
            } else {
                Ok((0, seq![], or_empty(settings.model), seq![]))
            },
        }
    } else if kind == "speechToText"@ || kind == "speech-to-text"@ {
        if inputs.audio == Some(crate::run::graph::PortType::Audio) {
            Ok((2, seq![], or_empty(settings.model), seq![]))
        } else {
            Err("nothing is wired to the audio port"@)
        }
    } else {
        match text_job(kind) {
            None => Err("`"@ + kind + "` is not a perception this engine has"@),
            Some(n) => match inputs.text {
                None => Err("nothing is wired to the text port"@),
                Some(t) => Ok((
                    n,
                    t@,
                    if n == 3 { or_empty(settings.voice) } else if n == 6 { or_empty(settings.model) } else { seq![] },
                    if n == 4 { crate::text::views(settings.labels@) } else { seq![] },
                )),
            },
        }
    }
}

fn given(o: &Option<String>) -> (s: String)
    ensures
        s@ == or_empty(*o),
{
    match o {
        Some(s) => s.clone(),
        None => String::new(),
    }
}

fn copy_all(v: &Vec<String>) -> (r: Vec<String>)
    ensures
        crate::text::views(r@) == crate::text::views(v@),
{
    let mut r: Vec<String> = Vec::new();
    let mut i: usize = 0;
    while i < v.len()
        invariant
            i <= v@.len(),
            crate::text::views(r@) == crate::text::views(v@).take(i as int),
        decreases v.len() - i,
    {
        let ghost before = crate::text::views(r@);
        let c = v[i].clone();
        r.push(c);
        proof {
            assert(crate::text::views(r@) =~= before.push(v@[i as int]@));
            assert(crate::text::views(v@).take(i + 1) =~= crate::text::views(v@).take(i as int).push(v@[i as int]@));
        }
        i = i + 1;
    }
    proof { assert(crate::text::views(v@).take(v@.len() as int) =~= crate::text::views(v@)); }
    r
}

/// Decide what a perception block asks of the helper, or why it cannot ask.
pub fn perception_job(kind: &str, inputs: &PortsView, settings: &SettingsView) -> (r: Result<PerceptionJob, String>)
    ensures
        match r {
            Ok(j) => perception_job_of(kind@, *inputs, *settings) == Ok::<_, Seq<char>>(job_view(j)),
            Err(e) => perception_job_of(kind@, *inputs, *settings) == Err::<(nat, Seq<char>, Seq<char>, Seq<Seq<char>>), Seq<char>>(e@),
        },
{
    let same = crate::text::same;
    proof {
        reveal_strlit("objectDetection");
        reveal_strlit("object-detection");
        reveal_strlit("face-recognition");
        reveal_strlit("speechToText");
        reveal_strlit("speech-to-text");
        reveal_strlit("textToSpeech");
        reveal_strlit("text-to-speech");
        reveal_strlit("classifier");
        reveal_strlit("affect");
        reveal_strlit("embedding");
    }
    if same(kind, "objectDetection") || same(kind, "object-detection") || same(kind, "face-recognition") {
        match inputs.image {
            Some(crate::run::graph::PortType::Image) => {},
            Some(t) => {
                let mut m = owned("the image port was given ");
                append(&mut m, flow_name(t));
                append(&mut m, ", which is not a frame");
                return Err(m);
            },
            None => return Err(owned("nothing is wired to the image port")),
        }
        if same(kind, "face-recognition") {
            return Ok(PerceptionJob::Recognise);
        }
        return Ok(PerceptionJob::Detect { model: given(&settings.model) });
    }
    if same(kind, "speechToText") || same(kind, "speech-to-text") {
        return match inputs.audio {
            Some(crate::run::graph::PortType::Audio) => Ok(PerceptionJob::Transcribe { model: given(&settings.model) }),
            _ => Err(owned("nothing is wired to the audio port")),
        };
    }
    let tts = same(kind, "textToSpeech") || same(kind, "text-to-speech");
    let cls = same(kind, "classifier");
    let aff = same(kind, "affect");
    let emb = same(kind, "embedding");
    if !(tts || cls || aff || emb) {
        let mut m = owned("`");
        append(&mut m, kind);
        append(&mut m, "` is not a perception this engine has");
        return Err(m);
    }
    let text = match &inputs.text {
        None => return Err(owned("nothing is wired to the text port")),
        Some(t) => t.clone(),
    };
    if tts {
        Ok(PerceptionJob::Speak { text, voice: given(&settings.voice) })
    } else if cls {
        Ok(PerceptionJob::Classify { text, labels: copy_all(&settings.labels) })
    } else if aff {
        Ok(PerceptionJob::Affect { text })
    } else {
        Ok(PerceptionJob::Embed { text, model: given(&settings.model) })
    }
}

/// What the console warns of when a face block has enrolment on: enrolling
/// a new face warrants a warning, and this engine does not enrol.
pub fn enrolment_warning(kind: &str, enrolment: bool) -> (w: Option<&'static str>)
    ensures
        match w {
            Some(t) => kind@ == "face-recognition"@ && enrolment && t@ == "enrolment is on, and this engine cannot enrol yet"@,
            None => !(kind@ == "face-recognition"@ && enrolment),
        },
{
    proof { reveal_strlit("face-recognition"); }
    if enrolment && crate::text::same(kind, "face-recognition") {
        Some("enrolment is on, and this engine cannot enrol yet")
    } else {
        None
    }
}

/// The figure a detection shows: how many things, and the first of them.
pub fn detection_figure(labels: &Vec<String>) -> (s: String)
    ensures
        s@ == if labels@.len() == 0 { "nothing"@ } else { crate::text::decimal(labels@.len()) + " · "@ + labels@[0]@ },
{
    if labels.len() == 0 {
        return owned("nothing");
    }
    let mut s = crate::text::decimal_of(labels.len() as u64);
    append(&mut s, " · ");
    append(&mut s, labels[0].as_str());
    s
}

/// The figure a recognition shows: the name, or "someone".
pub fn person_figure(name: Option<&str>) -> (s: String)
    ensures
        s@ == match name { Some(n) => n@, None => "someone"@ },
{
    match name {
        Some(n) => owned(n),
        None => owned("someone"),
    }
}

/// The figure an embedding shows: how many numbers the vector has.
pub fn dims_figure(n: usize) -> (s: String)
    ensures
        s@ == crate::text::decimal(n as nat) + " dims"@,
{
    let mut s = crate::text::decimal_of(n as u64);
    append(&mut s, " dims");
    s
}

} // verus!
