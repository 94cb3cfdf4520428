use vstd::prelude::*;

use crate::text::chars_of;

verus! {

/// Why a generation ended.
#[derive(Debug, Clone, PartialEq, Eq)]
pub enum FinishReason {
    /// The model produced an end-of-sequence or end-of-turn token.
    Stop,
    /// `max_tokens` tokens were produced, or the context is full.
    Length,
    /// The text produced ends with this stop word.
    StopWord(String),
}

impl FinishReason {
    /// Short name of the reason: `stop`, `length` or `stop_word:<w>`.
    pub fn to_string(&self) -> (r: String)
        ensures
            r@ == match self {
                FinishReason::Stop => "stop"@,
                FinishReason::Length => "length"@,
                FinishReason::StopWord(w) => "stop_word:"@ + w@,
            },
    {
        match self {
            FinishReason::Stop => String::from_str("stop"),
            FinishReason::Length => String::from_str("length"),
            FinishReason::StopWord(w) => String::from_str("stop_word:").concat(w.as_str()),
        }
    }
}

/// An event of a generation run, sent to the consumer in order.
#[derive(Debug, Clone)]
pub enum GenerateEvent {
    /// A piece of text, decoded from one token.
    Token(String),
    /// The run ended.
    Done { finish_reason: FinishReason, prompt_tokens: u32, completion_tokens: u32 },
    /// The run failed.
    Error(String),
}

/// Kind of an event, for reasoning about the order of events.
pub enum EventKind {
    Token,
    Done,
    Error,
}

pub open spec fn kind_of(e: GenerateEvent) -> EventKind {
    match e {
        GenerateEvent::Token(_) => EventKind::Token,
        GenerateEvent::Done { .. } => EventKind::Done,
        GenerateEvent::Error(_) => EventKind::Error,
    }
}

/// Where a run stands.
#[derive(Debug, Clone, Copy, PartialEq, Eq, Structural)]
pub enum Phase {
    /// Waiting for the outcome of a decode (of the prompt, or of the last token).
    Decoding,
    /// Waiting for a sampled token.
    Sampling,
    /// Waiting for the text of token `tok`.
    Rendering { tok: i32 },
    /// Waiting to learn whether the text of token `tok` reached the consumer.
    Sending { tok: i32 },
    /// The run is over.
    Finished,
}

/// What the driver of a run reports after doing what was asked.
#[derive(Debug)]
pub enum StepInput {
    /// A decode ended: `Ok`, or the decoder's error message.
    Decoded(Result<(), String>),
    /// The sampler picked this token.
    Sampled(i32),
    /// The text of the token being rendered.
    Piece(String),
    /// Whether the last token event was delivered (false: the consumer left).
    Sent(bool),
}

/// What the driver of a run does next.
#[derive(Debug)]
pub enum Step {
    /// Sample a token from the logits of the last decoded position.
    Sample,
    /// Turn token `tok` into its text, and report it with `Piece`.
    Render { tok: i32 },
    /// Deliver this token event, and report with `Sent`.
    Send(GenerateEvent),
    /// Decode token `tok` at position `pos`, and report with `Decoded`.
    Decode { tok: i32, pos: u32 },
    /// Deliver this last event (whether it arrives does not matter); the run is over.
    Finish(GenerateEvent),
    /// The run is over and nothing more is sent.
    Stop,
}

/// Whether `t` ends with `w`.
pub open spec fn ends_with(t: Seq<char>, w: Seq<char>) -> bool {
    w.len() <= t.len() && t.subrange(t.len() - w.len(), t.len() as int) == w
}

/// Index of the first stop word that the text ends with.
pub open spec fn first_stop(words: Seq<Seq<char>>, t: Seq<char>) -> Option<int> {
    if exists|i: int| 0 <= i < words.len() && ends_with(t, words[i]) {
        Some(
            choose|i: int|
                0 <= i < words.len() && ends_with(t, words[i]) && forall|k: int|
                    0 <= k < i ==> !ends_with(t, #[trigger] words[k]),
        )
    } else {
        None
    }
}

/// Whether a sequence of events has the shape of a run: token events, then
/// at most one `Done` or `Error`, which comes last.
pub open spec fn run_shape(ev: Seq<EventKind>) -> bool {
    forall|i: int| 0 <= i < ev.len() - 1 ==> (#[trigger] ev[i]) is Token
}

/// The decisions of one generation run. The driver performs each `Step`
/// (decode, sample, detokenize, send) and reports its outcome with
/// `advance`.
pub struct Generation {
    prompt_tokens: u32,
    max_tokens: u32,
    stop_words: Vec<String>,
    n_ctx: u32,
    eos: i32,
    eot: i32,
    completion_tokens: u32,
    n_cur: u32,
    text: Vec<char>,
    phase: Phase,
    /// Events handed out so far.
    events: Ghost<Seq<EventKind>>,
}

impl Generation {
    pub closed spec fn phase(&self) -> Phase {
        self.phase
    }

    pub closed spec fn completion_tokens(&self) -> u32 {
        self.completion_tokens
    }

    pub closed spec fn prompt_tokens(&self) -> u32 {
        self.prompt_tokens
    }

    pub closed spec fn max_tokens(&self) -> u32 {
        self.max_tokens
    }

    pub closed spec fn n_ctx(&self) -> u32 {
        self.n_ctx
    }

    pub closed spec fn eos(&self) -> i32 {
        self.eos
    }

    pub closed spec fn eot(&self) -> i32 {
        self.eot
    }

    pub closed spec fn position(&self) -> u32 {
        self.n_cur
    }

    pub closed spec fn text(&self) -> Seq<char> {
        self.text@
    }

    pub closed spec fn stop_words(&self) -> Seq<Seq<char>> {
        self.stop_words@.map_values(|w: String| w@)
    }

    /// Kinds of the events handed out so far, in order.
    pub closed spec fn events(&self) -> Seq<EventKind> {
        self.events@
    }

    pub closed spec fn wf(&self) -> bool {
        &&& run_shape(self.events@)
        &&& self.phase != Phase::Finished ==> forall|i: int|
            0 <= i < self.events@.len() ==> (#[trigger] self.events@[i]) is Token
        &&& self.phase is Sampling ==> self.completion_tokens < self.max_tokens
        &&& self.completion_tokens <= self.max_tokens
    }

    /// A run for a prompt of `prompt_tokens` tokens, whose decode the
    /// driver starts with. `n_ctx` is the context length; `eos` and `eot`
    /// end a run.
    pub fn new(prompt_tokens: u32, max_tokens: u32, stop_words: Vec<String>, n_ctx: u32, eos: i32, eot: i32) -> (r: Generation)
        ensures
            r.wf(),
            r.phase() == Phase::Decoding,
            r.events() == Seq::<EventKind>::empty(),
            r.completion_tokens() == 0,
            r.prompt_tokens() == prompt_tokens,
            r.max_tokens() == max_tokens,
            r.n_ctx() == n_ctx,
            r.eos() == eos,
            r.eot() == eot,
            r.position() == prompt_tokens,
            r.text() == Seq::<char>::empty(),
            r.stop_words() == stop_words@.map_values(|w: String| w@),
    {
        Generation {
            prompt_tokens,
            max_tokens,
            stop_words,
            n_ctx,
            eos,
            eot,
            completion_tokens: 0,
            n_cur: prompt_tokens,
            text: Vec::new(),
            phase: Phase::Decoding,
            events: Ghost(Seq::empty()),
        }
    }

    fn done(&self, reason: FinishReason) -> (r: GenerateEvent)
        ensures
            r == (GenerateEvent::Done {
                finish_reason: reason,
                prompt_tokens: self.prompt_tokens,
                completion_tokens: self.completion_tokens,
            }),
    {
        GenerateEvent::Done {
            finish_reason: reason,
            prompt_tokens: self.prompt_tokens,
            completion_tokens: self.completion_tokens,
        }
    }

    /// Index of the first stop word the text ends with.
    fn find_stop(&self) -> (r: Option<usize>)
        ensures
            match r {
                Some(i) => i < self.stop_words@.len() && first_stop(self.stop_words(), self.text@) == Some(i as int),
                None => first_stop(self.stop_words(), self.text@) is None,
            },
    {
        let ghost words = self.stop_words();
        let mut i: usize = 0;
        while i < self.stop_words.len()
            invariant
                i <= self.stop_words.len(),
                words == self.stop_words(),
                forall|k: int| 0 <= k < i ==> !ends_with(self.text@, #[trigger] words[k]),
            decreases self.stop_words.len() - i,
        {
            let w = chars_of(self.stop_words[i].as_str());
            assert(w@ == words[i as int]);
            if w.len() <= self.text.len() {
                let off = self.text.len() - w.len();
                let mut j: usize = 0;
                let mut same = true;
                while j < w.len()
                    invariant
                        off + w.len() == self.text.len(),
                        j <= w.len(),
                        same == forall|m: int| 0 <= m < j ==> self.text@[off + m] == w@[m],
                    decreases w.len() - j,
                {
                    if self.text[off + j] != w[j] {
                        same = false;
                    }
                    j = j + 1;
                }
                if same {
                    assert(self.text@.subrange(off as int, self.text@.len() as int) =~= w@);
                    proof {
                        let c = choose|c: int|
                            0 <= c < words.len() && ends_with(self.text@, words[c]) && forall|k: int|
                                0 <= k < c ==> !ends_with(self.text@, #[trigger] words[k]);
                        assert(ends_with(self.text@, words[i as int]));
                        if c < i {
                        } else if c > i {
                            assert(!ends_with(self.text@, words[i as int]));
                        }
                    }
                    return Some(i);
                }
                assert(!ends_with(self.text@, words[i as int])) by {
                    if ends_with(self.text@, words[i as int]) {
                        assert forall|m: int| 0 <= m < w.len() implies self.text@[off + m] == w@[m] by {
                            assert(self.text@.subrange(off as int, self.text@.len() as int)[m] == self.text@[off + m]);
                        }
                    }
                }
            }
            i = i + 1;
        }
        None
    }

    /// Take the outcome of the last step and decide the next one.
    pub fn advance(&mut self, input: StepInput) -> (r: Step)
        requires
            old(self).wf(),
        ensures
            final(self).wf(),
            final(self).prompt_tokens() == old(self).prompt_tokens(),
            final(self).max_tokens() == old(self).max_tokens(),
            final(self).n_ctx() == old(self).n_ctx(),
            final(self).eos() == old(self).eos(),
            final(self).eot() == old(self).eot(),
            final(self).stop_words() == old(self).stop_words(),
            final(self).events() == old(self).events() + match r {
                Step::Send(e) => seq![kind_of(e)],
                Step::Finish(e) => seq![kind_of(e)],
                _ => Seq::<EventKind>::empty(),
            },
            r is Finish || r is Stop <==> final(self).phase() == Phase::Finished,
            ({
                let g = *old(self);
                let done = |reason: FinishReason, n: u32|
                    GenerateEvent::Done { finish_reason: reason, prompt_tokens: g.prompt_tokens(), completion_tokens: n };
                match (g.phase(), input) {
                    (Phase::Decoding, StepInput::Decoded(Ok(_))) => if g.completion_tokens() >= g.max_tokens() {
                        r == Step::Finish(done(FinishReason::Length, g.completion_tokens()))
                    } else {
                        r is Sample && final(self).phase() == Phase::Sampling
                            && final(self).completion_tokens() == g.completion_tokens()
                            && final(self).position() == g.position() && final(self).text() == g.text()
                    },
                    (Phase::Decoding, StepInput::Decoded(Err(msg))) => r matches Step::Finish(
                        GenerateEvent::Error(m),
                    ) && m@ == (if g.completion_tokens() == 0 { "prompt decode: "@ } else { "decode: "@ }) + msg@,
                    (Phase::Sampling, StepInput::Sampled(tok)) => if tok == g.eos() || tok == g.eot() {
                        r == Step::Finish(done(FinishReason::Stop, (g.completion_tokens() + 1) as u32))
                    } else {
                        r == (Step::Render { tok }) && final(self).phase() == (Phase::Rendering { tok })
                            && final(self).completion_tokens() == g.completion_tokens() + 1
                            && final(self).position() == g.position() && final(self).text() == g.text()
                    },
                    (Phase::Rendering { tok }, StepInput::Piece(p)) => r matches Step::Send(GenerateEvent::Token(t)) && t@ == p@
                        && final(self).phase() == (Phase::Sending { tok }) && final(self).text() == g.text() + p@
                        && final(self).completion_tokens() == g.completion_tokens() && final(self).position() == g.position(),
                    (Phase::Sending { tok }, StepInput::Sent(ok)) => if !ok {
                        r is Stop
                    } else if first_stop(g.stop_words(), g.text()) is Some {
                        r matches Step::Finish(GenerateEvent::Done { finish_reason: FinishReason::StopWord(w), prompt_tokens, completion_tokens })
                            && w@ == g.stop_words()[first_stop(g.stop_words(), g.text())->Some_0]
                            && prompt_tokens == g.prompt_tokens() && completion_tokens == g.completion_tokens()
                    } else if g.position() >= g.n_ctx() {
                        r == Step::Finish(done(FinishReason::Length, g.completion_tokens()))
                    } else {
                        r == (Step::Decode { tok, pos: g.position() }) && final(self).phase() == Phase::Decoding
                            && final(self).position() == g.position() + 1 && final(self).completion_tokens() == g.completion_tokens()
                            && final(self).text() == g.text()
                    },
                    _ => r is Stop,
                }
            }),
    {
        let ghost ev0 = self.events@;
        let r = match (self.phase, input) {
            (Phase::Decoding, StepInput::Decoded(Ok(_))) => {
                if self.completion_tokens >= self.max_tokens {
                    Step::Finish(self.done(FinishReason::Length))
                } else {
                    self.phase = Phase::Sampling;
                    Step::Sample
                }
            },
            (Phase::Decoding, StepInput::Decoded(Err(msg))) => {
                let prefix = if self.completion_tokens == 0 {
                    String::from_str("prompt decode: ")
                } else {
                    String::from_str("decode: ")
                };
                Step::Finish(GenerateEvent::Error(prefix.concat(msg.as_str())))
            },
            (Phase::Sampling, StepInput::Sampled(tok)) => {
                self.completion_tokens = self.completion_tokens + 1;
                if tok == self.eos || tok == self.eot {
                    Step::Finish(self.done(FinishReason::Stop))
                } else {
                    self.phase = Phase::Rendering { tok };
                    Step::Render { tok }
                }
            },
            (Phase::Rendering { tok }, StepInput::Piece(p)) => {
                let pc = chars_of(p.as_str());
                let ghost t0 = self.text@;
                let mut j: usize = 0;
                while j < pc.len()
                    invariant
                        j <= pc.len(),
                        self.text@ == t0 + pc@.subrange(0, j as int),
                        self.stop_words == old(self).stop_words,
                        self.prompt_tokens == old(self).prompt_tokens,
                        self.completion_tokens == old(self).completion_tokens,
                        self.max_tokens == old(self).max_tokens,
                        self.n_ctx == old(self).n_ctx,
                        self.eos == old(self).eos,
                        self.eot == old(self).eot,
                        self.n_cur == old(self).n_cur,
                        self.phase == old(self).phase,
                        self.events == old(self).events,
                    decreases pc.len() - j,
                {
                    self.text.push(pc[j]);
                    assert(self.text@ =~= t0 + pc@.subrange(0, j + 1));
                    j = j + 1;
                }
                assert(pc@.subrange(0, j as int) =~= p@);
                self.phase = Phase::Sending { tok };
                Step::Send(GenerateEvent::Token(p))
            },
            (Phase::Sending { tok }, StepInput::Sent(ok)) => {
                if !ok {
                    Step::Stop
                } else if let Some(i) = self.find_stop() {
                    let w = self.stop_words[i].clone();
                    Step::Finish(self.done(FinishReason::StopWord(w)))
                } else if self.n_cur >= self.n_ctx {
                    Step::Finish(self.done(FinishReason::Length))
                } else {
                    let pos = self.n_cur;
                    self.n_cur = self.n_cur + 1;
                    self.phase = Phase::Decoding;
                    Step::Decode { tok, pos }
                }
            },
            _ => Step::Stop,
        };
        match &r {
            Step::Send(e) => {
                proof {
                    self.events@ = ev0.push(kind_of(*e));
                    assert(ev0 + seq![kind_of(*e)] =~= ev0.push(kind_of(*e)));
                }
            },
            Step::Finish(e) => {
                proof {
                    self.events@ = ev0.push(kind_of(*e));
                    assert(ev0 + seq![kind_of(*e)] =~= ev0.push(kind_of(*e)));
                }
                self.phase = Phase::Finished;
            },
            Step::Stop => {
                assert(ev0 + Seq::<EventKind>::empty() =~= ev0);
                self.phase = Phase::Finished;
            },
            _ => {
                assert(ev0 + Seq::<EventKind>::empty() =~= ev0);
            },
        }
        r
    }
}

/// In every run, all events but the last are token events; while the run
/// is not over, all of them are; and the run ends on at most one `Done` or
/// `Error`, after which nothing more is handed out.
pub proof fn run_events_shape(g: Generation)
    requires
        g.wf(),
    ensures
        forall|i: int| 0 <= i < g.events().len() - 1 ==> (#[trigger] g.events()[i]) is Token,
        g.phase() != Phase::Finished ==> forall|i: int| 0 <= i < g.events().len() ==> (#[trigger] g.events()[i]) is Token,
{
}

} // verus!
