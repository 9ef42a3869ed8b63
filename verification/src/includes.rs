use vstd::prelude::*;

use crate::common::{Token, TokenModel, TokenType, tokens_view};
use crate::lexer::{LexError, lex_file, lex_spec};
use crate::preprocess::PreprocessError;

verus! {

/// Number of `/` in a text.
pub open spec fn slash_count(s: Seq<char>) -> nat
    decreases s.len(),
{
    if s.len() == 0 {
        0
    } else {
        slash_count(s.drop_first()) + if s[0] == '/' {
            1nat
        } else {
            0nat
        }
    }
}

/// The first `k` `/`-separated components of `s`, each followed by `/`.
pub open spec fn take_components(s: Seq<char>, k: nat) -> Seq<char>
    decreases s.len(),
{
    if k == 0 {
        seq![]
    } else if s.len() == 0 {
        seq!['/']
    } else if s[0] == '/' {
        seq!['/'] + take_components(s.drop_first(), (k - 1) as nat)
    } else {
        seq![s[0]] + take_components(s.drop_first(), k)
    }
}

/// The folder part of a file path: all its components but the last, each followed by `/`.
pub open spec fn folder_of(path: Seq<char>) -> Seq<char> {
    take_components(path, slash_count(path))
}

/// Where an include path is looked for in an include folder: as many leading
/// components of the folder as the folder has beyond the folders of the
/// include path, followed by the include path; `None` when the include path
/// has more folders than the include folder has components.
pub open spec fn include_candidate(folder: Seq<char>, name: Seq<char>) -> Option<Seq<char>> {
    if slash_count(folder) + 1 < slash_count(name) {
        None
    } else {
        Some(take_components(folder, (slash_count(folder) + 1 - slash_count(name)) as nat) + name)
    }
}

/// Number of `/` in `text`.
fn slash_count_exec(text: &str) -> (n: usize)
    ensures
        n == slash_count(text@),
        n <= text@.len(),
{
    let len = text.unicode_len();
    let mut n: usize = 0;
    let mut k: usize = len;
    while k > 0
        invariant
            len == text@.len(),
            k <= len,
            n == slash_count(text@.skip(k as int)),
            n <= len - k,
        decreases k,
    {
        k -= 1;
        let ghost rest = text@.skip(k as int);
        assert(rest.drop_first() =~= text@.skip(k + 1));
        assert(rest[0] == text@[k as int]);
        if text.get_char(k) == '/' {
            n += 1;
        }
    }
    assert(text@.skip(0) =~= text@);
    n
}

/// Appends the first `k` components of `text`, each followed by `/`.
fn push_components(out: &mut String, text: &str, k: usize)
    ensures
        final(out)@ == old(out)@ + take_components(text@, k as nat),
{
    let len = text.unicode_len();
    let mut j: usize = 0;
    let mut left = k;
    assert(text@.skip(0) =~= text@);
    proof {
        reveal_strlit("/");
    }
    while left > 0 && j < len
        invariant
            len == text@.len(),
            j <= len,
            "/"@ == seq!['/'],
            old(out)@ + take_components(text@, k as nat) == out@ + take_components(text@.skip(j as int), left as nat),
        decreases len - j,
    {
        let ghost rest = text@.skip(j as int);
        let ghost before = out@;
        assert(rest.drop_first() =~= text@.skip(j + 1));
        assert(rest[0] == text@[j as int]);
        let c = text.get_char(j);
        out.append(text.substring_char(j, j + 1));
        assert(text@.subrange(j as int, j + 1) =~= seq![c]);
        if c == '/' {
            left -= 1;
        }
        j += 1;
        assert(before + (seq![c] + take_components(text@.skip(j as int), left as nat)) =~= out@
            + take_components(text@.skip(j as int), left as nat));
    }
    if left > 0 {
        out.append("/");
        assert(text@.skip(j as int) =~= Seq::<char>::empty());
    }
}

/// The folder part of a file path: all its components but the last, each followed by `/`.
pub fn folder_of_path(path: &str) -> (folder: String)
    ensures
        folder@ == folder_of(path@),
{
    let n = slash_count_exec(path);
    let mut folder = String::new();
    push_components(&mut folder, path, n);
    folder
}

/// Where the include path `name` is looked for in the include folder `folder`.
pub fn include_candidate_exec(folder: &str, name: &str) -> (res: Option<String>)
    ensures
        match include_candidate(folder@, name@) {
            Some(c) => res is Some && res->Some_0@ == c,
            None => res is None,
        },
{
    let nf = slash_count_exec(folder);
    let nn = slash_count_exec(name);
    let mut c = String::new();
    if nn == 0 {
        proof {
            lemma_take_all(folder@);
            reveal_strlit("/");
        }
        c.append(folder);
        c.append("/");
    } else {
        if nf < nn - 1 {
            return None;
        }
        push_components(&mut c, folder, nf - (nn - 1));
    }
    c.append(name);
    Some(c)
}

/// A token stream being copied: its tokens, how far the copy has got, and the
/// file it comes from.
pub struct IncludeFrame {
    pub tokens: Vec<Token>,
    pub pos: usize,
    pub file: String,
}

/// The mathematical content of a frame.
pub struct FrameModel {
    pub tokens: Seq<TokenModel>,
    pub pos: int,
    pub file: Seq<char>,
}

impl View for IncludeFrame {
    type V = FrameModel;

    open spec fn view(&self) -> FrameModel {
        FrameModel { tokens: tokens_view(self.tokens@), pos: self.pos as int, file: self.file@ }
    }
}

/// What the include expansion waits for.
pub enum Pending {
    /// nothing: it waits to be started
    Idle,
    /// whether `candidate`, where the include path `name` is looked for in
    /// include folder number `next`, exists
    Probing { name: String, next: usize, candidate: String },
    /// the contents of this file
    Reading(String),
}

/// The mathematical content of what the include expansion waits for.
pub enum PendingModel {
    Idle,
    Probing { name: Seq<char>, next: int, candidate: Seq<char> },
    Reading(Seq<char>),
}

impl View for Pending {
    type V = PendingModel;

    open spec fn view(&self) -> PendingModel {
        match self {
            Pending::Idle => PendingModel::Idle,
            Pending::Probing { name, next, candidate } => PendingModel::Probing {
                name: name@,
                next: *next as int,
                candidate: candidate@,
            },
            Pending::Reading(f) => PendingModel::Reading(f@),
        }
    }
}

/// What the include expansion asks its driver to do next.
#[derive(Debug)]
pub enum IncludeAction {
    /// tell whether this file exists
    CheckExists(String),
    /// hand over the contents of this file
    ReadFile(String),
    /// the expansion is complete
    Finished,
}

/// The mathematical content of an action.
pub enum ActionModel {
    CheckExists(Seq<char>),
    ReadFile(Seq<char>),
    Finished,
}

impl View for IncludeAction {
    type V = ActionModel;

    open spec fn view(&self) -> ActionModel {
        match self {
            IncludeAction::CheckExists(f) => ActionModel::CheckExists(f@),
            IncludeAction::ReadFile(f) => ActionModel::ReadFile(f@),
            IncludeAction::Finished => ActionModel::Finished,
        }
    }
}

/// What the driver hands back to the include expansion.
pub enum IncludeEvent {
    /// begin the expansion
    Start,
    /// whether the file asked about exists
    Exists(bool),
    /// the contents of the file asked for
    Contents(String),
}

/// Why an include expansion fails.
pub enum IncludeFailure {
    UnexpectedEnd,
    ExpectedPath,
    NotFound(Seq<char>),
    SelfInclude(Seq<char>),
    NotBf,
    SearchUnderflow,
    NotAscii,
    Lex(LexError),
    UnexpectedEvent,
}

/// The include failure an error stands for.
pub open spec fn failure_of(e: PreprocessError) -> Option<IncludeFailure> {
    match e {
        PreprocessError::UnexpectedEnd => Some(IncludeFailure::UnexpectedEnd),
        PreprocessError::IncludeExpectedPath => Some(IncludeFailure::ExpectedPath),
        PreprocessError::IncludeNotFound(n) => Some(IncludeFailure::NotFound(n@)),
        PreprocessError::IncludeSelf(f) => Some(IncludeFailure::SelfInclude(f@)),
        PreprocessError::IncludeNotBf => Some(IncludeFailure::NotBf),
        PreprocessError::IncludeSearchUnderflow => Some(IncludeFailure::SearchUnderflow),
        PreprocessError::IncludeNotAscii => Some(IncludeFailure::NotAscii),
        PreprocessError::Lex(l) => Some(IncludeFailure::Lex(l)),
        PreprocessError::UnexpectedEvent => Some(IncludeFailure::UnexpectedEvent),
        _ => None,
    }
}

/// Expands the `#include` directives of a program, file by file: it copies
/// tokens and, at each directive, asks its driver whether candidate files exist
/// and for the contents of the file included, whose tokens it copies in turn.
pub struct IncludeExpander {
    pub frames: Vec<IncludeFrame>,
    pub output: Vec<Token>,
    pub path: String,
    pub folders: Vec<String>,
    pub pending: Pending,
}

/// The mathematical content of an include expansion.
pub struct ExpanderModel {
    pub frames: Seq<FrameModel>,
    pub output: Seq<TokenModel>,
    pub path: Seq<char>,
    pub folders: Seq<Seq<char>>,
    pub pending: PendingModel,
}

impl View for IncludeExpander {
    type V = ExpanderModel;

    open spec fn view(&self) -> ExpanderModel {
        ExpanderModel {
            frames: self.frames@.map_values(|f: IncludeFrame| f@),
            output: tokens_view(self.output@),
            path: self.path@,
            folders: self.folders@.map_values(|s: String| s@),
            pending: self.pending@,
        }
    }
}

/// How much copying is left: the tokens not yet copied and the frames not yet closed.
pub open spec fn work_left(frames: Seq<FrameModel>) -> nat
    decreases frames.len(),
{
    if frames.len() == 0 {
        0
    } else {
        let f = frames.last();
        work_left(frames.drop_last()) + 1 + if 0 <= f.pos < f.tokens.len() {
            (f.tokens.len() - f.pos) as nat
        } else {
            0nat
        }
    }
}

/// Whether a file name ends in `.bf`.
pub open spec fn ends_bf(f: Seq<char>) -> bool {
    f.len() >= 3 && f.subrange(f.len() - 3, f.len() as int) == seq!['.', 'b', 'f']
}

/// The include directive of the top frame names the file `file`: it is read
/// unless it is the file that holds the directive or does not end in `.bf`.
pub open spec fn target_file(m: ExpanderModel, file: Seq<char>) -> (ExpanderModel, Result<ActionModel, IncludeFailure>) {
    if m.frames.len() == 0 {
        (m, Err(IncludeFailure::UnexpectedEvent))
    } else if file == m.frames.last().file {
        (m, Err(IncludeFailure::SelfInclude(file)))
    } else if !ends_bf(file) {
        (m, Err(IncludeFailure::NotBf))
    } else {
        (ExpanderModel { pending: PendingModel::Reading(file), ..m }, Ok(ActionModel::ReadFile(file)))
    }
}

/// Looks for the include path `name` in include folder number `next` and those after it.
pub open spec fn probe_from(m: ExpanderModel, name: Seq<char>, next: int) -> (ExpanderModel, Result<ActionModel, IncludeFailure>) {
    if next < 0 || next >= m.folders.len() {
        (m, Err(IncludeFailure::NotFound(name)))
    } else {
        match include_candidate(m.folders[next], name) {
            None => (m, Err(IncludeFailure::SearchUnderflow)),
            Some(c) => (
                ExpanderModel { pending: PendingModel::Probing { name, next, candidate: c }, ..m },
                Ok(ActionModel::CheckExists(c)),
            ),
        }
    }
}

/// Copies tokens until the next include directive or the end of the last frame.
pub open spec fn run(m: ExpanderModel) -> (ExpanderModel, Result<ActionModel, IncludeFailure>)
    decreases work_left(m.frames),
{
    if m.frames.len() == 0 {
        (ExpanderModel { pending: PendingModel::Idle, ..m }, Ok(ActionModel::Finished))
    } else {
        let top = m.frames.last();
        let rest = m.frames.drop_last();
        if top.pos < 0 || top.pos >= top.tokens.len() {
            run(ExpanderModel { frames: rest, ..m })
        } else {
            let t = top.tokens[top.pos];
            if t.token_type != TokenType::IncludeMacro {
                proof {
                    let moved = rest.push(FrameModel { pos: top.pos + 1, ..top });
                    assert(moved.drop_last() =~= rest);
                }
                run(
                    ExpanderModel {
                        frames: rest.push(FrameModel { pos: top.pos + 1, ..top }),
                        output: m.output.push(t),
                        ..m
                    },
                )
            } else if top.pos + 1 >= top.tokens.len() {
                (m, Err(IncludeFailure::UnexpectedEnd))
            } else {
                let f = top.tokens[top.pos + 1];
                let m1 = ExpanderModel { frames: rest.push(FrameModel { pos: top.pos + 2, ..top }), ..m };
                if f.token_type == TokenType::StringLit {
                    target_file(m1, m.path + f.value)
                } else if f.token_type == TokenType::IncludePath {
                    probe_from(m1, f.value, 0)
                } else {
                    (m1, Err(IncludeFailure::ExpectedPath))
                }
            }
        }
    }
}

/// The mathematical content of an event.
pub enum EventModel {
    Start,
    Exists(bool),
    Contents(Seq<char>),
}

impl View for IncludeEvent {
    type V = EventModel;

    open spec fn view(&self) -> EventModel {
        match self {
            IncludeEvent::Start => EventModel::Start,
            IncludeEvent::Exists(b) => EventModel::Exists(*b),
            IncludeEvent::Contents(s) => EventModel::Contents(s@),
        }
    }
}

/// One step of the include expansion: what it does with the event it is handed
/// in the state it is in, and what it asks for next.
pub open spec fn step_spec(m: ExpanderModel, event: EventModel) -> (ExpanderModel, Result<ActionModel, IncludeFailure>) {
    match (m.pending, event) {
        (PendingModel::Idle, EventModel::Start) => run(m),
        (PendingModel::Probing { name, next, candidate }, EventModel::Exists(found)) => {
            let m0 = ExpanderModel { pending: PendingModel::Idle, ..m };
            if found {
                target_file(m0, candidate)
            } else {
                probe_from(m0, name, next + 1)
            }
        },
        (PendingModel::Reading(file), EventModel::Contents(text)) => if !vstd::utf8::is_ascii_chars(text) {
            (m, Err(IncludeFailure::NotAscii))
        } else {
            match lex_spec(text) {
                Err(e) => (m, Err(IncludeFailure::Lex(e))),
                Ok(toks) => run(
                    ExpanderModel {
                        frames: m.frames.push(FrameModel { tokens: toks, pos: 0, file }),
                        pending: PendingModel::Idle,
                        ..m
                    },
                ),
            }
        },
        _ => (m, Err(IncludeFailure::UnexpectedEvent)),
    }
}

/// `res` and the final state agree with the outcome `r` of the spec.
pub open spec fn step_matches(
    r: (ExpanderModel, Result<ActionModel, IncludeFailure>),
    res: Result<IncludeAction, PreprocessError>,
    m: ExpanderModel,
) -> bool {
    match r.1 {
        Ok(a) => res is Ok && res->Ok_0@ == a && m == r.0,
        Err(f) => res is Err && failure_of(res->Err_0) == Some(f),
    }
}

pub proof fn lemma_take_all(s: Seq<char>)
    ensures
        take_components(s, slash_count(s) + 1) == s + seq!['/'],
    decreases s.len(),
{
    if s.len() > 0 {
        lemma_take_all(s.drop_first());
        assert(s =~= seq![s[0]] + s.drop_first());
        assert(seq![s[0]] + (s.drop_first() + seq!['/']) =~= s + seq!['/']);
    }
}

impl IncludeExpander {
    /// An expansion of the tokens of file `current_path`; string-literal includes
    /// are relative to the folder `path`, include paths are looked for in `folders`.
    pub fn new(tokens: Vec<Token>, current_path: String, path: String, folders: Vec<String>) -> (e: Self)
        ensures
            e@ == (ExpanderModel {
                frames: seq![FrameModel { tokens: tokens_view(tokens@), pos: 0, file: current_path@ }],
                output: seq![],
                path: path@,
                folders: folders@.map_values(|s: String| s@),
                pending: PendingModel::Idle,
            }),
    {
        let mut frames: Vec<IncludeFrame> = Vec::new();
        let frame = IncludeFrame { tokens, pos: 0, file: current_path };
        let ghost fv = frame@;
        frames.push(frame);
        let e = IncludeExpander { frames, output: Vec::new(), path, folders, pending: Pending::Idle };
        assert(e@.frames =~= seq![fv]);
        assert(e@.output =~= Seq::<TokenModel>::empty());
        e
    }
}

/// Whether a file name ends in `.bf`.
pub fn ends_with_bf(s: &String) -> (r: bool)
    ensures
        r == ends_bf(s@),
{
    let t = s.as_str();
    let n = t.unicode_len();
    if n < 3 {
        return false;
    }
    let r = t.get_char(n - 3) == '.' && t.get_char(n - 2) == 'b' && t.get_char(n - 1) == 'f';
    assert(r == (s@.subrange(n - 3, n as int) =~= seq!['.', 'b', 'f']));
    r
}

impl IncludeExpander {
    /// The directive of the top frame names `file`: asks for its contents.
    fn target(&mut self, file: String) -> (res: Result<IncludeAction, PreprocessError>)
        ensures
            step_matches(target_file(old(self)@, file@), res, final(self)@),
    {
        if self.frames.len() == 0 {
            return Err(PreprocessError::UnexpectedEvent);
        }
        let last = self.frames.len() - 1;
        assert(self@.frames.last() == self.frames@[last as int]@);
        if file == self.frames[last].file {
            return Err(PreprocessError::IncludeSelf(file));
        }
        if !ends_with_bf(&file) {
            return Err(PreprocessError::IncludeNotBf);
        }
        self.pending = Pending::Reading(file.clone());
        Ok(IncludeAction::ReadFile(file))
    }

    /// Looks for the include path `name` in include folder number `next`.
    fn probe(&mut self, name: String, next: usize) -> (res: Result<IncludeAction, PreprocessError>)
        ensures
            step_matches(probe_from(old(self)@, name@, next as int), res, final(self)@),
    {
        if next >= self.folders.len() {
            return Err(PreprocessError::IncludeNotFound(name));
        }
        assert(self@.folders[next as int] == self.folders@[next as int]@);
        match include_candidate_exec(self.folders[next].as_str(), name.as_str()) {
            None => Err(PreprocessError::IncludeSearchUnderflow),
            Some(c) => {
                self.pending = Pending::Probing { name, next, candidate: c.clone() };
                Ok(IncludeAction::CheckExists(c))
            },
        }
    }

    /// Copies tokens until the next include directive or the end of the last frame.
    fn run_frames(&mut self) -> (res: Result<IncludeAction, PreprocessError>)
        ensures
            step_matches(run(old(self)@), res, final(self)@),
    {
        let ghost goal = run(self@);
        loop
            invariant
                goal == run(old(self)@),
                goal == run(self@),
            decreases work_left(self@.frames),
        {
            let ghost before = self@;
            let ghost fv = self@.frames;
            match self.frames.pop() {
                None => {
                    self.pending = Pending::Idle;
                    return Ok(IncludeAction::Finished);
                },
                Some(mut top) => {
                    assert(fv.last() == top@);
                    assert(self@.frames =~= fv.drop_last());
                    if top.pos >= top.tokens.len() {
                        assert(self@ == ExpanderModel { frames: fv.drop_last(), ..before });
                        assert(work_left(fv) == work_left(fv.drop_last()) + 1);
                        assert(work_left(self@.frames) < work_left(fv));
                        continue ;
                    }
                    let t = top.tokens[top.pos].clone();
                    if t.token_type != TokenType::IncludeMacro {
                        let ghost out0 = self@.output;
                        self.output.push(t);
                        top.pos = top.pos + 1;
                        let ghost tv = top@;
                        self.frames.push(top);
                        assert(self@.frames =~= fv.drop_last().push(tv));
                        assert(self@.output =~= out0.push(t@));
                        assert(self@ == ExpanderModel {
                            frames: fv.drop_last().push(FrameModel { pos: fv.last().pos + 1, ..fv.last() }),
                            output: before.output.push(fv.last().tokens[fv.last().pos]),
                            ..before
                        });
                        assert(fv.drop_last().push(tv).drop_last() =~= fv.drop_last());
                        assert(work_left(self@.frames) < work_left(fv));
                        continue ;
                    }
                    if top.pos + 1 >= top.tokens.len() {
                        return Err(PreprocessError::UnexpectedEnd);
                    }
                    let f = top.tokens[top.pos + 1].clone();
                    assert(f@ == fv.last().tokens[fv.last().pos + 1]);
                    top.pos = top.pos + 2;
                    let ghost tv = top@;
                    self.frames.push(top);
                    assert(self@.frames =~= fv.drop_last().push(tv));
                    if f.token_type == TokenType::StringLit {
                        let mut file = self.path.clone();
                        file.append(f.value.as_str());
                        return self.target(file);
                    } else if f.token_type == TokenType::IncludePath {
                        return self.probe(f.value, 0);
                    } else {
                        return Err(PreprocessError::IncludeExpectedPath);
                    }
                },
            }
        }
    }

    /// Hands the expansion an event and gets what it asks for next. After an
    /// error the expansion is over: the state it is left in is not specified.
    pub fn step(&mut self, event: IncludeEvent) -> (res: Result<IncludeAction, PreprocessError>)
        ensures
            step_matches(step_spec(old(self)@, event@), res, final(self)@),
    {
        let mut pending = Pending::Idle;
        std::mem::swap(&mut pending, &mut self.pending);
        let ghost m0 = self@;
        match (pending, event) {
            (Pending::Idle, IncludeEvent::Start) => self.run_frames(),
            (Pending::Probing { name, next, candidate }, IncludeEvent::Exists(found)) => {
                if found {
                    self.target(candidate)
                } else if next >= self.folders.len() {
                    Err(PreprocessError::IncludeNotFound(name))
                } else {
                    self.probe(name, next + 1)
                }
            },
            (Pending::Reading(file), IncludeEvent::Contents(text)) => {
                if !text.is_ascii() {
                    return Err(PreprocessError::IncludeNotAscii);
                }
                match lex_file(text) {
                    Err(e) => Err(PreprocessError::Lex(e)),
                    Ok(tokens) => {
                        let frame = IncludeFrame { tokens, pos: 0, file };
                        let ghost fv = frame@;
                        let ghost frames0 = self@.frames;
                        self.frames.push(frame);
                        assert(self@.frames =~= frames0.push(fv));
                        self.run_frames()
                    },
                }
            },
            _ => Err(PreprocessError::UnexpectedEvent),
        }
    }
}


/// No token is an `#include` directive.
pub open spec fn no_includes(toks: Seq<TokenModel>) -> bool {
    forall|k: int| 0 <= k < toks.len() ==> (#[trigger] toks[k]).token_type != TokenType::IncludeMacro
}

proof fn lemma_run_copies(m: ExpanderModel)
    requires
        m.frames.len() == 1,
        0 <= m.frames[0].pos <= m.frames[0].tokens.len(),
        no_includes(m.frames[0].tokens),
    ensures
        run(m) == (
            ExpanderModel {
                frames: seq![],
                output: m.output + m.frames[0].tokens.skip(m.frames[0].pos),
                pending: PendingModel::Idle,
                ..m
            },
            Ok::<ActionModel, IncludeFailure>(ActionModel::Finished),
        ),
    decreases m.frames[0].tokens.len() - m.frames[0].pos,
{
    let top = m.frames.last();
    assert(top == m.frames[0]);
    let rest = m.frames.drop_last();
    assert(rest =~= Seq::<FrameModel>::empty());
    if top.pos >= top.tokens.len() {
        let m2 = ExpanderModel { frames: rest, ..m };
        assert(run(m2) == (ExpanderModel { pending: PendingModel::Idle, ..m2 }, Ok::<ActionModel, IncludeFailure>(
            ActionModel::Finished,
        )));
        assert(top.tokens.skip(top.pos) =~= Seq::<TokenModel>::empty());
        assert(m.output + top.tokens.skip(top.pos) =~= m.output);
    } else {
        let t = top.tokens[top.pos];
        assert(t.token_type != TokenType::IncludeMacro);
        let f2 = FrameModel { pos: top.pos + 1, ..top };
        let m2 = ExpanderModel { frames: rest.push(f2), output: m.output.push(t), ..m };
        assert(rest.push(f2) =~= seq![f2]);
        lemma_run_copies(m2);
        assert(m.output.push(t) + top.tokens.skip(top.pos + 1) =~= m.output + top.tokens.skip(top.pos));
    }
}

/// A program without `#include` directives is copied through unchanged: the
/// expansion, once started, finishes at once, asks for no file, and its
/// output is the program's own tokens.
pub proof fn law_no_includes_single_step(toks: Seq<TokenModel>, file: Seq<char>, path: Seq<char>, folders: Seq<Seq<char>>)
    requires
        no_includes(toks),
    ensures
        ({
            let m = ExpanderModel {
                frames: seq![FrameModel { tokens: toks, pos: 0, file }],
                output: seq![],
                path,
                folders,
                pending: PendingModel::Idle,
            };
            step_spec(m, EventModel::Start) == (
                ExpanderModel { frames: seq![], output: toks, ..m },
                Ok::<ActionModel, IncludeFailure>(ActionModel::Finished),
            )
        }),
{
    let m = ExpanderModel {
        frames: seq![FrameModel { tokens: toks, pos: 0, file }],
        output: seq![],
        path,
        folders,
        pending: PendingModel::Idle,
    };
    lemma_run_copies(m);
    assert(Seq::<TokenModel>::empty() + toks.skip(0) =~= toks);
}


proof fn lemma_run_drain_top(m: ExpanderModel)
    requires
        m.frames.len() >= 1,
        0 <= m.frames.last().pos <= m.frames.last().tokens.len(),
        forall|k: int|
            m.frames.last().pos <= k < m.frames.last().tokens.len() ==> (#[trigger] m.frames.last().tokens[k]).token_type
                != TokenType::IncludeMacro,
    ensures
        run(m) == run(
            ExpanderModel {
                frames: m.frames.drop_last(),
                output: m.output + m.frames.last().tokens.skip(m.frames.last().pos),
                ..m
            },
        ),
    decreases m.frames.last().tokens.len() - m.frames.last().pos,
{
    let top = m.frames.last();
    let rest = m.frames.drop_last();
    if top.pos >= top.tokens.len() {
        assert(top.tokens.skip(top.pos) =~= Seq::<TokenModel>::empty());
        assert(m.output + top.tokens.skip(top.pos) =~= m.output);
        assert(ExpanderModel { frames: rest, ..m } == ExpanderModel {
            frames: rest,
            output: m.output + top.tokens.skip(top.pos),
            ..m
        });
    } else {
        let t = top.tokens[top.pos];
        let f2 = FrameModel { pos: top.pos + 1, ..top };
        let m2 = ExpanderModel { frames: rest.push(f2), output: m.output.push(t), ..m };
        assert(m2.frames.last() == f2);
        assert(m2.frames.drop_last() =~= rest);
        lemma_run_drain_top(m2);
        assert(m.output.push(t) + top.tokens.skip(top.pos + 1) =~= m.output + top.tokens.skip(top.pos));
    }
}

proof fn lemma_run_to_directive(m: ExpanderModel, q: int)
    requires
        m.frames.len() >= 1,
        0 <= m.frames.last().pos <= q < m.frames.last().tokens.len(),
        m.frames.last().tokens[q].token_type == TokenType::IncludeMacro,
        forall|k: int|
            m.frames.last().pos <= k < q ==> (#[trigger] m.frames.last().tokens[k]).token_type
                != TokenType::IncludeMacro,
    ensures
        run(m) == run(
            ExpanderModel {
                frames: m.frames.drop_last().push(FrameModel { pos: q, ..m.frames.last() }),
                output: m.output + m.frames.last().tokens.subrange(m.frames.last().pos, q),
                ..m
            },
        ),
    decreases q - m.frames.last().pos,
{
    let top = m.frames.last();
    let rest = m.frames.drop_last();
    if top.pos == q {
        assert(m.frames =~= rest.push(FrameModel { pos: q, ..top }));
        assert(m.output + top.tokens.subrange(top.pos, q) =~= m.output);
        assert(m == ExpanderModel {
            frames: rest.push(FrameModel { pos: q, ..top }),
            output: m.output + top.tokens.subrange(top.pos, q),
            ..m
        });
    } else {
        let t = top.tokens[top.pos];
        let f2 = FrameModel { pos: top.pos + 1, ..top };
        let m2 = ExpanderModel { frames: rest.push(f2), output: m.output.push(t), ..m };
        assert(m2.frames.last() == f2);
        assert(m2.frames.drop_last() =~= rest);
        lemma_run_to_directive(m2, q);
        assert(m.output.push(t) + top.tokens.subrange(top.pos + 1, q) =~= m.output + top.tokens.subrange(top.pos, q));
        assert(rest.push(FrameModel { pos: q, ..f2 }) =~= rest.push(FrameModel { pos: q, ..top }));
    }
}

/// What `#include` does: in a program with one include directive naming a
/// file by a string literal, the expansion asks for that file, relative to
/// the program's folder, and once handed its contents, finishes with the
/// file's tokens in the place of the directive.
pub proof fn law_include_splices_file(
    pre: Seq<TokenModel>,
    directive: TokenModel,
    literal: TokenModel,
    post: Seq<TokenModel>,
    file: Seq<char>,
    path: Seq<char>,
    folders: Seq<Seq<char>>,
    text: Seq<char>,
    included: Seq<TokenModel>,
)
    requires
        no_includes(pre),
        no_includes(post),
        directive.token_type == TokenType::IncludeMacro,
        literal.token_type == TokenType::StringLit,
        path + literal.value != file,
        ends_bf(path + literal.value),
        vstd::utf8::is_ascii_chars(text),
        lex_spec(text) == Ok::<Seq<TokenModel>, LexError>(included),
        no_includes(included),
    ensures
        ({
            let m0 = ExpanderModel {
                frames: seq![FrameModel { tokens: pre + seq![directive, literal] + post, pos: 0, file }],
                output: seq![],
                path,
                folders,
                pending: PendingModel::Idle,
            };
            let (m1, r1) = step_spec(m0, EventModel::Start);
            let (m2, r2) = step_spec(m1, EventModel::Contents(text));
            &&& r1 == Ok::<ActionModel, IncludeFailure>(ActionModel::ReadFile(path + literal.value))
            &&& r2 == Ok::<ActionModel, IncludeFailure>(ActionModel::Finished)
            &&& m2.output == pre + included + post
        }),
{
    let toks = pre + seq![directive, literal] + post;
    let q = pre.len() as int;
    let f0 = FrameModel { tokens: toks, pos: 0, file };
    let m0 = ExpanderModel { frames: seq![f0], output: seq![], path, folders, pending: PendingModel::Idle };
    assert(toks[q] == directive);
    assert(toks[q + 1] == literal);
    assert forall|k: int| 0 <= k < q implies (#[trigger] m0.frames.last().tokens[k]).token_type != TokenType::IncludeMacro by {
        assert(toks[k] == pre[k]);
    }
    lemma_run_to_directive(m0, q);
    let at = ExpanderModel {
        frames: seq![FrameModel { pos: q, ..f0 }],
        output: Seq::<TokenModel>::empty() + toks.subrange(0, q),
        ..m0
    };
    assert(m0.frames.drop_last().push(FrameModel { pos: q, ..f0 }) =~= seq![FrameModel { pos: q, ..f0 }]);
    assert(toks.subrange(0, q) =~= pre);
    let f1 = FrameModel { pos: q + 2, ..f0 };
    let m1 = ExpanderModel {
        frames: seq![f1],
        output: pre,
        pending: PendingModel::Reading(path + literal.value),
        ..m0
    };
    assert(at.frames.drop_last().push(f1) =~= seq![f1]);
    assert(step_spec(m0, EventModel::Start) == (m1, Ok::<ActionModel, IncludeFailure>(
        ActionModel::ReadFile(path + literal.value),
    )));
    let f2 = FrameModel { tokens: included, pos: 0, file: path + literal.value };
    let m1b = ExpanderModel { frames: seq![f1, f2], pending: PendingModel::Idle, ..m1 };
    assert(seq![f1].push(f2) =~= seq![f1, f2]);
    assert(step_spec(m1, EventModel::Contents(text)) == run(m1b));
    lemma_run_drain_top(m1b);
    assert(m1b.frames.drop_last() =~= seq![f1]);
    assert(included.skip(0) =~= included);
    let m1c = ExpanderModel { frames: seq![f1], output: pre + included, ..m1b };
    assert forall|k: int| 0 <= k < toks.skip(q + 2).len() implies (#[trigger] toks.skip(q + 2)[k]).token_type != TokenType::IncludeMacro by {
        assert(toks.skip(q + 2)[k] == post[k]);
    }
    assert(toks.skip(q + 2) =~= post);
    assert forall|k: int| q + 2 <= k < toks.len() implies (#[trigger] m1c.frames.last().tokens[k]).token_type != TokenType::IncludeMacro by {
        assert(toks[k] == post[k - q - 2]);
    }
    lemma_run_drain_top(m1c);
    assert(m1c.frames.drop_last() =~= Seq::<FrameModel>::empty());
    assert(pre + included + toks.skip(q + 2) =~= pre + included + post);
}


proof fn lemma_run_output_clean(m: ExpanderModel)
    requires
        no_includes(m.output),
    ensures
        no_includes(run(m).0.output),
    decreases work_left(m.frames),
{
    if m.frames.len() > 0 {
        let top = m.frames.last();
        let rest = m.frames.drop_last();
        assert(work_left(m.frames) == work_left(rest) + 1 + if 0 <= top.pos < top.tokens.len() {
            (top.tokens.len() - top.pos) as nat
        } else {
            0nat
        });
        if top.pos < 0 || top.pos >= top.tokens.len() {
            lemma_run_output_clean(ExpanderModel { frames: rest, ..m });
        } else {
            let t = top.tokens[top.pos];
            if t.token_type != TokenType::IncludeMacro {
                let moved = rest.push(FrameModel { pos: top.pos + 1, ..top });
                assert(moved.drop_last() =~= rest);
                let out = m.output.push(t);
                assert forall|k: int| 0 <= k < out.len() implies (#[trigger] out[k]).token_type
                    != TokenType::IncludeMacro by {
                    if k < m.output.len() {
                        assert(out[k] == m.output[k]);
                    }
                }
                lemma_run_output_clean(ExpanderModel { frames: moved, output: out, ..m });
            }
        }
    }
}

/// The output of the include expansion never holds an `#include`: each
/// step, from an output without one, leaves an output without one (and the
/// expansion starts with an empty output).
pub proof fn law_output_never_holds_includes(m: ExpanderModel, event: EventModel)
    requires
        no_includes(m.output),
    ensures
        no_includes(step_spec(m, event).0.output),
{
    match (m.pending, event) {
        (PendingModel::Idle, EventModel::Start) => lemma_run_output_clean(m),
        (PendingModel::Reading(file), EventModel::Contents(text)) => {
            if vstd::utf8::is_ascii_chars(text) {
                if let Ok(toks) = lex_spec(text) {
                    lemma_run_output_clean(
                        ExpanderModel {
                            frames: m.frames.push(FrameModel { tokens: toks, pos: 0, file }),
                            pending: PendingModel::Idle,
                            ..m
                        },
                    );
                }
            }
        },
        _ => {},
    }
}

} // verus!
