//! The course of a listing: which directory is opened, headed, listed or
//! reported next. The file system and the output are used by the caller, who
//! does what `step` asks for and hands the outcome to `advance`.
use crate::config::{Config, Sort};
use crate::error::LsError;
use crate::meta::IoFailure;
use crate::path::copy_bytes;
use rustc_hash::{FxBuildHasher, FxHashSet};
use std::collections::HashSet;
use vstd::prelude::*;

verus! {

// ---------------------------------------------------------------------------
// The set of directories that were met
// ---------------------------------------------------------------------------

/// The hasher of `rustc_hash::FxHashSet`.
#[verifier::external_type_specification]
#[verifier::external_body]
pub struct ExFxBuildHasher(rustc_hash::FxBuildHasher);

/// Calls `HashSet::insert` on a `rustc_hash::FxHashSet`. Not proved: that the
/// set then holds the pair beside what it held, and that the result tells
/// whether the pair is new to it.
#[verifier::external_body]
fn remember(listed: &mut HashSet<(u64, u64), FxBuildHasher>, id: (u64, u64)) -> (r: bool)
    ensures
        final(listed)@ == old(listed)@.insert(id),
        r == !old(listed)@.contains(id),
{
    listed.insert(id)
}

// ---------------------------------------------------------------------------
// The course as a value
// ---------------------------------------------------------------------------

/// A directory on the way.
#[verifier::ext_equal]
pub struct Dir {
    pub path: Seq<u8>,
    pub must_dereference: bool,
    pub command_line: bool,
}

/// What is waited for.
#[verifier::ext_equal]
pub enum At {
    Beginning,
    Walking,
    OpeningOperand,
    ReportingOperand(IoFailure),
    HeadingOperand,
    IdentifyingOperand,
    /// The entries of a directory.
    Contents(Dir),
    /// Whether the last of these can be opened.
    ProbingChild(Seq<Dir>),
    /// Which directory the last of these is.
    IdentifyingChild(Seq<Dir>),
    /// The last of these could not be opened.
    FailedChild(Seq<Dir>, IoFailure),
    /// The last of these was met before.
    RepeatedChild(Seq<Dir>),
    HeadingNext(Dir),
    OpeningNext(Dir),
    ReportingNext(Dir, IoFailure),
    Finishing,
    Finished,
    /// The listing ended before its time.
    Aborted(IoFailure),
}

/// Where a listing stands.
#[verifier::ext_equal]
pub struct Course {
    /// Whether subdirectories are listed too.
    pub recursive: bool,
    /// Whether whole trees can be walked at once.
    pub walks: bool,
    /// Whether directories have headings.
    pub headed: bool,
    /// Whether no file stands before the directories.
    pub no_files: bool,
    /// The directories to list.
    pub dirs: Seq<Dir>,
    /// Which of them is being listed.
    pub pos: int,
    /// The directories below it that are still to be listed, the next one last.
    pub stack: Seq<Dir>,
    /// The directories that were met below it, and itself.
    pub met: Seq<(u64, u64)>,
    pub at: At,
}

/// What the caller is asked to do.
#[verifier::ext_equal]
pub enum Ask {
    Begin,
    /// The directory, its place among the operands, and whether no file stands
    /// before these.
    Walk(Dir, int, bool),
    Open(Seq<u8>),
    /// Flush the output, then tell of the failure at the path.
    ReportFailure(Seq<u8>, IoFailure, bool),
    /// Flush the output, then tell that the directory was listed before.
    ReportRepeat(Seq<u8>),
    Heading(Dir, bool),
    Identify(Seq<u8>, bool),
    Contents(Seq<u8>),
    Finish,
    Done,
    /// Nothing: the listing failed.
    Abort(IoFailure),
    /// A report of another kind, which is never asked for.
    ReportOther,
}

/// What came of it.
#[verifier::ext_equal]
pub enum Answer {
    Done,
    Walked(bool),
    Opened,
    Failed(IoFailure),
    Id((u64, u64)),
    Children(Seq<Dir>),
}

/// How work on the directory operand at `pos` starts.
pub open spec fn operand_start(c: Course) -> At {
    if c.pos >= c.dirs.len() {
        At::Finishing
    } else if c.walks {
        At::Walking
    } else {
        At::OpeningOperand
    }
}

/// On to the next operand; what was met below this one is forgotten.
pub open spec fn next_operand(c: Course) -> Course {
    let n = Course { pos: c.pos + 1, met: Seq::empty(), ..c };
    Course { at: operand_start(n), ..n }
}

/// On to the contents of the operand.
pub open spec fn entered(c: Course) -> Course {
    Course {
        at: if c.recursive {
            At::IdentifyingOperand
        } else {
            At::Contents(c.dirs[c.pos])
        },
        ..c
    }
}

/// On to the last of the children, to the next directory in wait where there
/// is no child, or to the next operand.
pub open spec fn next_child(c: Course, children: Seq<Dir>) -> Course {
    if children.len() > 0 {
        Course { at: At::ProbingChild(children), ..c }
    } else if c.stack.len() > 0 {
        Course { at: At::HeadingNext(c.stack.last()), stack: c.stack.drop_last(), ..c }
    } else {
        next_operand(c)
    }
}

/// How a listing goes on. An answer to what was not asked changes nothing.
pub open spec fn after(c: Course, answer: Answer) -> Course {
    match (c.at, answer) {
        (At::Beginning, Answer::Done) => Course { at: operand_start(c), ..c },
        (At::Walking, Answer::Walked(done)) => if done {
            next_operand(c)
        } else {
            Course { at: At::OpeningOperand, ..c }
        },
        (At::Walking, Answer::Failed(f)) => Course { at: At::Aborted(f), ..c },
        (At::OpeningOperand, Answer::Failed(f)) => Course { at: At::ReportingOperand(f), ..c },
        (At::OpeningOperand, Answer::Opened) => if c.headed {
            Course { at: At::HeadingOperand, ..c }
        } else {
            entered(c)
        },
        (At::ReportingOperand(_), Answer::Done) => next_operand(c),
        (At::HeadingOperand, Answer::Done) => entered(c),
        (At::IdentifyingOperand, Answer::Id(id)) => Course {
            met: seq![id],
            at: At::Contents(c.dirs[c.pos]),
            ..c
        },
        (At::IdentifyingOperand, Answer::Failed(f)) => Course { at: At::Aborted(f), ..c },
        (At::Contents(_), Answer::Children(children)) => next_child(
            c,
            if c.recursive {
                children
            } else {
                Seq::empty()
            },
        ),
        (At::ProbingChild(children), Answer::Failed(f)) => Course {
            at: At::FailedChild(children, f),
            ..c
        },
        (At::ProbingChild(children), Answer::Opened) => Course {
            at: At::IdentifyingChild(children),
            ..c
        },
        (At::IdentifyingChild(children), Answer::Id(id)) => if c.met.contains(id) {
            Course { at: At::RepeatedChild(children), ..c }
        } else {
            next_child(
                Course { stack: c.stack.push(children.last()), met: c.met.push(id), ..c },
                children.drop_last(),
            )
        },
        (At::IdentifyingChild(_), Answer::Failed(f)) => Course { at: At::Aborted(f), ..c },
        (At::FailedChild(children, _), Answer::Done) => next_child(c, children.drop_last()),
        (At::RepeatedChild(children), Answer::Done) => next_child(c, children.drop_last()),
        (At::HeadingNext(d), Answer::Done) => Course { at: At::OpeningNext(d), ..c },
        (At::OpeningNext(d), Answer::Failed(f)) => Course { at: At::ReportingNext(d, f), ..c },
        (At::OpeningNext(d), Answer::Opened) => Course { at: At::Contents(d), ..c },
        (At::ReportingNext(_, _), Answer::Done) => next_child(c, Seq::empty()),
        (At::Finishing, Answer::Done) => Course { at: At::Finished, ..c },
        _ => c,
    }
}

/// What is to be done where a listing stands. The heading of an operand is the
/// first thing in the output where nothing stands before the first operand.
pub open spec fn asks(c: Course) -> Ask {
    match c.at {
        At::Beginning => Ask::Begin,
        At::Walking => Ask::Walk(c.dirs[c.pos], c.pos, c.no_files),
        At::OpeningOperand => Ask::Open(c.dirs[c.pos].path),
        At::ReportingOperand(f) => Ask::ReportFailure(
            c.dirs[c.pos].path,
            f,
            c.dirs[c.pos].command_line,
        ),
        At::HeadingOperand => Ask::Heading(c.dirs[c.pos], c.pos == 0 && c.no_files),
        At::IdentifyingOperand => Ask::Identify(
            c.dirs[c.pos].path,
            c.dirs[c.pos].must_dereference,
        ),
        At::Contents(d) => Ask::Contents(d.path),
        At::ProbingChild(children) => Ask::Open(children.last().path),
        At::IdentifyingChild(children) => Ask::Identify(
            children.last().path,
            children.last().must_dereference,
        ),
        At::FailedChild(children, f) => Ask::ReportFailure(
            children.last().path,
            f,
            children.last().command_line,
        ),
        At::RepeatedChild(children) => Ask::ReportRepeat(children.last().path),
        At::HeadingNext(d) => Ask::Heading(d, false),
        At::OpeningNext(d) => Ask::Open(d.path),
        At::ReportingNext(d, f) => Ask::ReportFailure(d.path, f, d.command_line),
        At::Finishing => Ask::Finish,
        At::Finished => Ask::Done,
        At::Aborted(f) => Ask::Abort(f),
    }
}

/// What holds of every listing on its way.
pub open spec fn sane(c: Course) -> bool {
    &&& 0 <= c.pos <= c.dirs.len()
    &&& c.met.no_duplicates()
    &&& match c.at {
        At::Beginning => c.pos == 0 && c.stack.len() == 0 && c.met.len() == 0,
        At::Finishing | At::Finished => c.pos == c.dirs.len() && c.stack.len() == 0,
        At::Walking
        | At::OpeningOperand
        | At::ReportingOperand(_)
        | At::HeadingOperand
        | At::IdentifyingOperand => c.pos < c.dirs.len() && c.stack.len() == 0 && c.met.len() == 0,
        At::ProbingChild(children)
        | At::IdentifyingChild(children)
        | At::FailedChild(children, _)
        | At::RepeatedChild(children) => c.pos < c.dirs.len() && c.recursive && children.len() > 0,
        At::Contents(_)
        | At::HeadingNext(_)
        | At::OpeningNext(_)
        | At::ReportingNext(_, _)
        | At::Aborted(_) => c.pos < c.dirs.len(),
    }
}

/// How many directories below the operand, itself included, were taken up and
/// have their contents still to come.
pub open spec fn unlisted(c: Course) -> int {
    c.stack.len() + (match c.at {
        At::Contents(_) | At::HeadingNext(_) | At::OpeningNext(_) => 1int,
        _ => 0int,
    })
}

/// No directory below an operand is taken up twice, and neither is the operand
/// itself: what was met has no duplicates, now and after whatever answer.
pub proof fn law_no_directory_twice(c: Course, answer: Answer)
    requires
        sane(c),
    ensures
        sane(after(c, answer)),
{
    let n = after(c, answer);
    match (c.at, answer) {
        (At::IdentifyingChild(children), Answer::Id(id)) => {
            if !c.met.contains(id) {
                assert(c.met.push(id).no_duplicates());
            }
        },
        _ => {},
    }
}

/// A directory waits to be listed only once it was met, and each one met waits
/// at most once: those in wait are never more than those met.
pub proof fn law_waiting_were_met(c: Course, answer: Answer)
    requires
        sane(c),
        c.recursive && !(c.at is IdentifyingOperand) ==> unlisted(c) <= c.met.len(),
    ensures
        ({
            let n = after(c, answer);
            n.recursive && !(n.at is IdentifyingOperand) ==> unlisted(n) <= n.met.len()
        }),
{
}

/// The output is begun once, before anything else, and finished last.
pub proof fn law_output_is_begun_and_finished(c: Course, answer: Answer)
    requires
        sane(c),
    ensures
        asks(after(c, answer)) is Begin ==> after(c, answer) == c,
        asks(after(c, answer)) is Done ==> asks(c) is Finish || asks(c) is Done,
        asks(c) is Done ==> after(c, answer) == c,
{
}

/// A listing fails exactly where a tree cannot be walked or it cannot be found
/// out which directory one is, with that failure; and it stays failed. A
/// directory that cannot be opened is reported, and the listing goes on.
pub proof fn law_when_a_listing_fails(c: Course, answer: Answer, f: IoFailure)
    requires
        sane(c),
        !(asks(c) is Abort),
    ensures
        asks(after(c, answer)) == Ask::Abort(f) <==> (asks(c) is Walk || asks(c) is Identify)
            && answer == Answer::Failed(f),
        asks(c) is Open && answer == Answer::Failed(f) ==> (asks(
            after(c, answer),
        ) matches Ask::ReportFailure(path, told, _) && asks(c) == Ask::Open(path) && told == f),
        forall|a: Answer| asks(after(c, answer)) is Abort ==> #[trigger] after(
            after(c, answer),
            a,
        ) == after(c, answer),
{
}

/// Whether an operand was opened and its contents are still to come.
pub open spec fn operand_is_open(at: At) -> bool {
    at is HeadingOperand || at is IdentifyingOperand
}

/// The contents of a directory are listed only once it was opened. An operand
/// has its heading after it was opened, so that a failure to open it is told
/// before any heading; a directory below it has its heading before.
pub proof fn law_only_opened_directories_are_listed(c: Course, answer: Answer, d: Dir)
    requires
        sane(c),
    ensures
        ({
            let n = after(c, answer);
            let operand_opened = operand_is_open(c.at) || (c.at is OpeningOperand && answer
                is Opened);
            &&& operand_is_open(n.at) ==> n == c || operand_opened
            &&& n.at == At::Contents(d) ==> n == c || (c.at == At::OpeningNext(d) && answer
                is Opened) || (operand_opened && d == c.dirs[c.pos])
            &&& n.at == At::OpeningNext(d) ==> n == c || c.at == At::HeadingNext(d)
        }),
{
}

// ---------------------------------------------------------------------------
// Order
// ---------------------------------------------------------------------------

/// What is found out about a child.
pub enum Verdict {
    Closed(IoFailure),
    Open((u64, u64)),
}

/// The children from `k` on that will be listed, in their order, and the
/// directories that were met then. Children are looked at from the last to the
/// first.
pub open spec fn admitted(
    children: Seq<Dir>,
    verdicts: Seq<Verdict>,
    met: Seq<(u64, u64)>,
    k: int,
) -> (Seq<Dir>, Seq<(u64, u64)>)
    decreases children.len() - k,
{
    if k >= children.len() {
        (Seq::empty(), met)
    } else {
        let (later, seen) = admitted(children, verdicts, met, k + 1);
        match verdicts[k] {
            Verdict::Closed(_) => (later, seen),
            Verdict::Open(id) => if seen.contains(id) {
                (later, seen)
            } else {
                (seq![children[k]] + later, seen.push(id))
            },
        }
    }
}

/// One child dealt with.
pub open spec fn settle(c: Course, verdict: Verdict) -> Course {
    match verdict {
        Verdict::Closed(f) => after(after(c, Answer::Failed(f)), Answer::Done),
        Verdict::Open(id) => {
            let m = after(after(c, Answer::Opened), Answer::Id(id));
            if m.at is RepeatedChild {
                after(m, Answer::Done)
            } else {
                m
            }
        },
    }
}

/// The last `n` children dealt with, from the last one down.
pub open spec fn settle_all(c: Course, verdicts: Seq<Verdict>, k: int) -> Course
    decreases verdicts.len() - k,
{
    if k >= verdicts.len() {
        c
    } else {
        settle(settle_all(c, verdicts, k + 1), verdicts[k])
    }
}

proof fn lemma_settled(c: Course, children: Seq<Dir>, verdicts: Seq<Verdict>, k: int)
    requires
        c.at == At::ProbingChild(children),
        children.len() == verdicts.len(),
        0 < k <= children.len(),
    ensures
        ({
            let (dirs, met) = admitted(children, verdicts, c.met, k);
            settle_all(c, verdicts, k) == (Course {
                at: At::ProbingChild(children.take(k)),
                stack: c.stack + dirs.reverse(),
                met,
                ..c
            })
        }),
    decreases verdicts.len() - k,
{
    let (dirs, met) = admitted(children, verdicts, c.met, k);
    if k == children.len() {
        assert(children.take(k) =~= children);
        assert(c.stack + dirs.reverse() =~= c.stack);
    } else {
        lemma_settled(c, children, verdicts, k + 1);
        let (later, seen) = admitted(children, verdicts, c.met, k + 1);
        let front = children.take(k + 1);
        assert(front.last() == children[k]);
        assert(front.drop_last() =~= children.take(k));
        if verdicts[k] is Open && !seen.contains(verdicts[k]->Open_0) {
            assert(c.stack + (seq![children[k]] + later).reverse() =~= (c.stack
                + later.reverse()).push(children[k]));
        }
    }
}

/// Once all children of a directory were looked at, those that will be listed
/// wait in the order in which they were shown: the first of them is headed at
/// once, and each comes before those that waited already.
pub proof fn law_children_are_listed_in_order(
    c: Course,
    children: Seq<Dir>,
    verdicts: Seq<Verdict>,
)
    requires
        c.at == At::ProbingChild(children),
        children.len() == verdicts.len(),
        children.len() > 0,
    ensures
        ({
            let (dirs, met) = admitted(children, verdicts, c.met, 0);
            settle_all(c, verdicts, 0) == next_child(
                Course { stack: c.stack + dirs.reverse(), met, ..c },
                Seq::empty(),
            )
        }),
        ({
            let (dirs, met) = admitted(children, verdicts, c.met, 0);
            dirs.len() > 0 ==> {
                &&& settle_all(c, verdicts, 0).at == At::HeadingNext(dirs[0])
                &&& settle_all(c, verdicts, 0).stack == c.stack + dirs.drop_first().reverse()
            }
        }),
{
    lemma_settled(c, children, verdicts, 1);
    let (dirs, met) = admitted(children, verdicts, c.met, 0);
    let (later, seen) = admitted(children, verdicts, c.met, 1);
    let front = children.take(1);
    assert(front.last() == children[0]);
    assert(front.drop_last() =~= Seq::<Dir>::empty());
    if verdicts[0] is Open && !seen.contains(verdicts[0]->Open_0) {
        assert(c.stack + (seq![children[0]] + later).reverse() =~= (c.stack + later.reverse()).push(
            children[0],
        ));
    }
    if dirs.len() > 0 {
        assert((c.stack + dirs.reverse()).last() == dirs[0]);
        assert((c.stack + dirs.reverse()).drop_last() =~= c.stack + dirs.drop_first().reverse());
    }
}

// ---------------------------------------------------------------------------
// End
// ---------------------------------------------------------------------------

pub open spec fn at_rank(at: At) -> int {
    match at {
        At::Beginning => 16,
        At::Walking => 15,
        At::OpeningOperand => 14,
        At::ReportingOperand(_) => 13,
        At::HeadingOperand => 12,
        At::IdentifyingOperand => 11,
        At::ProbingChild(_) => 10,
        At::IdentifyingChild(_) => 9,
        At::FailedChild(_, _) => 8,
        At::RepeatedChild(_) => 8,
        At::ReportingNext(_, _) => 7,
        At::HeadingNext(_) => 6,
        At::OpeningNext(_) => 5,
        At::Contents(_) => 4,
        At::Finishing => 1,
        At::Finished => 0,
        At::Aborted(_) => 0,
    }
}

/// How many directories wait, those included whose turn it is.
pub open spec fn ahead(c: Course) -> int {
    c.stack.len() + (match c.at {
        At::Beginning
        | At::Walking
        | At::OpeningOperand
        | At::ReportingOperand(_)
        | At::HeadingOperand
        | At::IdentifyingOperand
        | At::Contents(_)
        | At::HeadingNext(_)
        | At::OpeningNext(_) => 1int,
        _ => 0int,
    })
}

pub open spec fn children_left(c: Course) -> int {
    match c.at {
        At::ProbingChild(s)
        | At::IdentifyingChild(s)
        | At::FailedChild(s, _)
        | At::RepeatedChild(s) => s.len() as int,
        _ => 0,
    }
}

/// Whether a listing at `b` is nearer its end than one at `a`, where the
/// directories of the file system are those in `ids`.
pub open spec fn nearer(a: Course, b: Course, ids: Set<(u64, u64)>) -> bool {
    decreases_to!(
        a.dirs.len() - a.pos,
        ids.len() - a.met.len(),
        ahead(a),
        children_left(a),
        at_rank(a.at)
        =>
        b.dirs.len() - b.pos,
        ids.len() - b.met.len(),
        ahead(b),
        children_left(b),
        at_rank(b.at)
    )
}

/// Whether an answer is one to what was asked.
pub open spec fn fits(at: At, answer: Answer) -> bool {
    match at {
        At::Beginning
        | At::ReportingOperand(_)
        | At::HeadingOperand
        | At::FailedChild(_, _)
        | At::RepeatedChild(_)
        | At::HeadingNext(_)
        | At::ReportingNext(_, _)
        | At::Finishing => answer is Done,
        At::Walking => answer is Walked || answer is Failed,
        At::OpeningOperand | At::ProbingChild(_) | At::OpeningNext(_) => answer is Opened || answer
            is Failed,
        At::IdentifyingOperand | At::IdentifyingChild(_) => answer is Id || answer is Failed,
        At::Contents(_) => answer is Children,
        At::Finished | At::Aborted(_) => false,
    }
}

/// Every listing ends, whatever links the directories hold: with each answer it
/// comes nearer its end, in a measure that cannot fall forever.
pub proof fn law_listing_ends(c: Course, answer: Answer, ids: Set<(u64, u64)>)
    requires
        sane(c),
        ids.finite(),
        c.met.to_set().subset_of(ids),
        fits(c.at, answer),
        answer matches Answer::Id(id) ==> ids.contains(id),
    ensures
        after(c, answer).met.to_set().subset_of(ids),
        nearer(c, after(c, answer), ids),
{
    let n = after(c, answer);
    c.met.unique_seq_to_set();
    vstd::set_lib::lemma_len_subset(c.met.to_set(), ids);
    law_no_directory_twice(c, answer);
    assert(n.met.to_set().subset_of(ids)) by {
        assert forall|x: (u64, u64)| n.met.to_set().contains(x) implies ids.contains(x) by {
            assert(n.met.contains(x));
            if c.met.contains(x) {
                assert(c.met.to_set().contains(x));
            }
        }
    }
    n.met.unique_seq_to_set();
    vstd::set_lib::lemma_len_subset(n.met.to_set(), ids);
}

// ---------------------------------------------------------------------------
// The machine
// ---------------------------------------------------------------------------

/// A directory on the way.
#[derive(Debug)]
pub struct Place {
    pub path: Vec<u8>,
    pub must_dereference: bool,
    pub command_line: bool,
}

impl View for Place {
    type V = Dir;

    open spec fn view(&self) -> Dir {
        Dir {
            path: self.path@,
            must_dereference: self.must_dereference,
            command_line: self.command_line,
        }
    }
}

pub open spec fn places_view(places: Seq<Place>) -> Seq<Dir> {
    Seq::new(places.len(), |k: int| places[k]@)
}

/// What the caller is asked to do.
#[derive(Debug)]
pub enum Step {
    /// Initialize the output and write the files.
    Begin,
    /// List the whole tree of this directory at once, if that can be done. With
    /// it comes its place among the operands, and whether no file stands before
    /// these.
    Walk(Place, usize, bool),
    Open(Vec<u8>),
    /// Flush the output, then report.
    Report(LsError),
    /// Write the heading of a directory; the flag tells that it comes first.
    Heading(Place, bool),
    /// Find out which directory this is, following links or not.
    Identify(Vec<u8>, bool),
    /// Write the entries of the directory that was opened.
    Contents(Vec<u8>),
    /// Finalize the output and flush it.
    Finish,
    Done,
    /// Nothing: the listing failed.
    Abort(IoFailure),
}

impl View for Step {
    type V = Ask;

    open spec fn view(&self) -> Ask {
        match *self {
            Step::Begin => Ask::Begin,
            Step::Walk(p, pos, no_files) => Ask::Walk(p@, pos as int, no_files),
            Step::Open(path) => Ask::Open(path@),
            Step::Report(LsError::IOErrorContext(path, f, command_line)) => Ask::ReportFailure(
                path@,
                f,
                command_line,
            ),
            Step::Report(LsError::AlreadyListedError(path)) => Ask::ReportRepeat(path@),
            Step::Report(_) => Ask::ReportOther,
            Step::Heading(p, is_first) => Ask::Heading(p@, is_first),
            Step::Identify(path, dereference) => Ask::Identify(path@, dereference),
            Step::Contents(path) => Ask::Contents(path@),
            Step::Finish => Ask::Finish,
            Step::Done => Ask::Done,
            Step::Abort(f) => Ask::Abort(f),
        }
    }
}

/// What came of it.
#[derive(Debug)]
pub enum Reply {
    Done,
    /// Whether the tree was listed.
    Walked(bool),
    Opened,
    Failed(IoFailure),
    /// The device and the file number of a directory.
    Id(u64, u64),
    /// The directories among the entries, in the order in which they were shown.
    Children(Vec<Place>),
}

impl View for Reply {
    type V = Answer;

    open spec fn view(&self) -> Answer {
        match *self {
            Reply::Done => Answer::Done,
            Reply::Walked(done) => Answer::Walked(done),
            Reply::Opened => Answer::Opened,
            Reply::Failed(f) => Answer::Failed(f),
            Reply::Id(dev, ino) => Answer::Id((dev, ino)),
            Reply::Children(children) => Answer::Children(places_view(children@)),
        }
    }
}

enum Phase {
    Beginning,
    Walking,
    OpeningOperand,
    ReportingOperand(IoFailure),
    HeadingOperand,
    IdentifyingOperand,
    /// The operand where there is no other directory.
    Contents(Option<Place>),
    ProbingChild(Vec<Place>),
    IdentifyingChild(Vec<Place>),
    FailedChild(Vec<Place>, IoFailure),
    RepeatedChild(Vec<Place>),
    HeadingNext(Place),
    OpeningNext(Place),
    ReportingNext(Place, IoFailure),
    Finishing,
    Finished,
    Aborted(IoFailure),
}

/// Where an answer leads.
enum Turn {
    Wait(Phase),
    /// To the last of these, or on where there is none.
    Child(Vec<Place>),
    Operand(usize),
}

/// A listing on its way.
pub struct Listing {
    recursive: bool,
    walks: bool,
    headed: bool,
    no_files: bool,
    dirs: Vec<Place>,
    pos: usize,
    stack: Vec<Place>,
    listed: HashSet<(u64, u64), FxBuildHasher>,
    met: Ghost<Seq<(u64, u64)>>,
    phase: Phase,
}

impl View for Listing {
    type V = Course;

    closed spec fn view(&self) -> Course {
        let dirs = places_view(self.dirs@);
        Course {
            recursive: self.recursive,
            walks: self.walks,
            headed: self.headed,
            no_files: self.no_files,
            dirs,
            pos: self.pos as int,
            stack: places_view(self.stack@),
            met: self.met@,
            at: match self.phase {
                Phase::Beginning => At::Beginning,
                Phase::Walking => At::Walking,
                Phase::OpeningOperand => At::OpeningOperand,
                Phase::ReportingOperand(f) => At::ReportingOperand(f),
                Phase::HeadingOperand => At::HeadingOperand,
                Phase::IdentifyingOperand => At::IdentifyingOperand,
                Phase::Contents(None) => At::Contents(dirs[self.pos as int]),
                Phase::Contents(Some(p)) => At::Contents(p@),
                Phase::ProbingChild(c) => At::ProbingChild(places_view(c@)),
                Phase::IdentifyingChild(c) => At::IdentifyingChild(places_view(c@)),
                Phase::FailedChild(c, f) => At::FailedChild(places_view(c@), f),
                Phase::RepeatedChild(c) => At::RepeatedChild(places_view(c@)),
                Phase::HeadingNext(p) => At::HeadingNext(p@),
                Phase::OpeningNext(p) => At::OpeningNext(p@),
                Phase::ReportingNext(p, f) => At::ReportingNext(p@, f),
                Phase::Finishing => At::Finishing,
                Phase::Finished => At::Finished,
                Phase::Aborted(f) => At::Aborted(f),
            },
        }
    }
}

fn copy_place(p: &Place) -> (r: Place)
    ensures
        r@ == p@,
{
    Place {
        path: copy_bytes(p.path.as_slice()),
        must_dereference: p.must_dereference,
        command_line: p.command_line,
    }
}

impl Listing {
    /// What holds between calls.
    #[verifier::type_invariant]
    closed spec fn inv(self) -> bool {
        &&& sane(self@)
        &&& self.listed@ == self.met@.to_set()
    }

    /// A listing of directories that is yet to begin. `headed` tells that more
    /// than one path was asked for; `no_files` that none of them is a file.
    pub fn start(dirs: Vec<Place>, headed: bool, no_files: bool, config: &Config) -> (r: Listing)
        ensures
            r@ == (Course {
                recursive: config.recursive,
                walks: config.recursive && config.sort != Sort::Time,
                headed: headed || config.recursive,
                no_files,
                dirs: places_view(dirs@),
                pos: 0,
                stack: Seq::empty(),
                met: Seq::empty(),
                at: At::Beginning,
            }),
            sane(r@),
    {
        let by_time = match config.sort {
            Sort::Time => true,
            _ => false,
        };
        let stack: Vec<Place> = Vec::new();
        let listed: HashSet<(u64, u64), FxBuildHasher> = FxHashSet::default();
        let met: Ghost<Seq<(u64, u64)>> = Ghost(Seq::empty());
        assert(listed@ =~= met@.to_set());
        assert(places_view(stack@) =~= Seq::empty());
        Listing {
            recursive: config.recursive,
            walks: config.recursive && !by_time,
            headed: headed || config.recursive,
            no_files,
            dirs,
            pos: 0,
            stack,
            listed,
            met,
            phase: Phase::Beginning,
        }
    }

    /// What is to be done next.
    pub fn step(&self) -> (r: Step)
        ensures
            r@ == asks(self@),
    {
        proof {
            use_type_invariant(self);
        }
        match &self.phase {
            Phase::Beginning => Step::Begin,
            Phase::Walking => Step::Walk(
                copy_place(&self.dirs[self.pos]),
                self.pos,
                self.no_files,
            ),
            Phase::OpeningOperand => Step::Open(copy_bytes(self.dirs[self.pos].path.as_slice())),
            Phase::ReportingOperand(f) => {
                let d = &self.dirs[self.pos];
                Step::Report(
                    LsError::IOErrorContext(copy_bytes(d.path.as_slice()), *f, d.command_line),
                )
            },
            Phase::HeadingOperand => Step::Heading(
                copy_place(&self.dirs[self.pos]),
                self.pos == 0 && self.no_files,
            ),
            Phase::IdentifyingOperand => {
                let d = &self.dirs[self.pos];
                Step::Identify(copy_bytes(d.path.as_slice()), d.must_dereference)
            },
            Phase::Contents(None) => Step::Contents(
                copy_bytes(self.dirs[self.pos].path.as_slice()),
            ),
            Phase::Contents(Some(p)) => Step::Contents(copy_bytes(p.path.as_slice())),
            Phase::ProbingChild(c) => Step::Open(copy_bytes(c[c.len() - 1].path.as_slice())),
            Phase::IdentifyingChild(c) => {
                let d = &c[c.len() - 1];
                Step::Identify(copy_bytes(d.path.as_slice()), d.must_dereference)
            },
            Phase::FailedChild(c, f) => {
                let d = &c[c.len() - 1];
                Step::Report(
                    LsError::IOErrorContext(copy_bytes(d.path.as_slice()), *f, d.command_line),
                )
            },
            Phase::RepeatedChild(c) => Step::Report(
                LsError::AlreadyListedError(copy_bytes(c[c.len() - 1].path.as_slice())),
            ),
            Phase::HeadingNext(p) => Step::Heading(copy_place(p), false),
            Phase::OpeningNext(p) => Step::Open(copy_bytes(p.path.as_slice())),
            Phase::ReportingNext(p, f) => Step::Report(
                LsError::IOErrorContext(copy_bytes(p.path.as_slice()), *f, p.command_line),
            ),
            Phase::Finishing => Step::Finish,
            Phase::Finished => Step::Done,
            Phase::Aborted(f) => Step::Abort(*f),
        }
    }

    /// Takes in what came of the last step.
    pub fn advance(self, reply: Reply) -> (r: Listing)
        ensures
            r@ == after(self@, reply@),
            sane(r@),
    {
        proof {
            use_type_invariant(&self);
            law_no_directory_twice(self@, reply@);
        }
        let count: usize = self.dirs.len();
        let Listing {
            recursive,
            walks,
            headed,
            no_files,
            dirs,
            pos,
            stack,
            listed,
            met,
            phase,
        } = self;
        let mut stack = stack;
        let mut listed = listed;
        let mut met = met;
        let mut turn = match (phase, reply) {
            (Phase::Beginning, Reply::Done) => Turn::Operand(pos),
            (Phase::Walking, Reply::Walked(done)) => {
                if done {
                    Turn::Operand(pos + 1)
                } else {
                    Turn::Wait(Phase::OpeningOperand)
                }
            },
            (Phase::Walking, Reply::Failed(f)) => Turn::Wait(Phase::Aborted(f)),
            (Phase::OpeningOperand, Reply::Failed(f)) => Turn::Wait(Phase::ReportingOperand(f)),
            (Phase::OpeningOperand, Reply::Opened) => {
                if headed {
                    Turn::Wait(Phase::HeadingOperand)
                } else if recursive {
                    Turn::Wait(Phase::IdentifyingOperand)
                } else {
                    Turn::Wait(Phase::Contents(None))
                }
            },
            (Phase::ReportingOperand(_), Reply::Done) => Turn::Operand(pos + 1),
            (Phase::HeadingOperand, Reply::Done) => {
                if recursive {
                    Turn::Wait(Phase::IdentifyingOperand)
                } else {
                    Turn::Wait(Phase::Contents(None))
                }
            },
            (Phase::IdentifyingOperand, Reply::Id(dev, ino)) => {
                remember(&mut listed, (dev, ino));
                proof {
                    assert(met@ =~= Seq::empty());
                    met@ = seq![(dev, ino)];
                    assert(met@[0] == (dev, ino));
                    assert forall|x: (u64, u64)| listed@.contains(x) == met@.to_set().contains(
                        x,
                    ) by {
                        assert(!self.met@.to_set().contains(x));
                    }
                    assert(listed@ =~= met@.to_set());
                }
                Turn::Wait(Phase::Contents(None))
            },
            (Phase::IdentifyingOperand, Reply::Failed(f)) => Turn::Wait(Phase::Aborted(f)),
            (Phase::Contents(_), Reply::Children(children)) => {
                if recursive {
                    Turn::Child(children)
                } else {
                    Turn::Child(Vec::new())
                }
            },
            (Phase::ProbingChild(c), Reply::Failed(f)) => Turn::Wait(Phase::FailedChild(c, f)),
            (Phase::ProbingChild(c), Reply::Opened) => Turn::Wait(Phase::IdentifyingChild(c)),
            (Phase::IdentifyingChild(c), Reply::Id(dev, ino)) => {
                let mut c = c;
                let ghost all = c@;
                let ghost was = listed@;
                let ghost id = (dev, ino);
                assert(was.contains(id) == met@.contains(id));
                if remember(&mut listed, (dev, ino)) {
                    proof {
                        met@ = met@.push(id);
                        assert(listed@ =~= met@.to_set()) by {
                            assert forall|x: (u64, u64)| was.insert(id).contains(x)
                                == met@.to_set().contains(x) by {
                                if was.contains(x) {
                                    assert(self.met@.contains(x));
                                    let k = choose|k: int|
                                        0 <= k < self.met@.len() && self.met@[k] == x;
                                    assert(met@[k] == x);
                                }
                                if x == id {
                                    assert(met@[met@.len() - 1] == x);
                                }
                                if met@.contains(x) && x != id {
                                    assert(self.met@.contains(x));
                                }
                            }
                        }
                    }
                    if let Some(d) = c.pop() {
                        let ghost sofar = stack@;
                        stack.push(d);
                        assert(places_view(stack@) =~= places_view(sofar).push(
                            places_view(all).last(),
                        ));
                    }
                    assert(places_view(c@) =~= places_view(all).drop_last());
                    Turn::Child(c)
                } else {
                    assert(listed@ =~= was);
                    Turn::Wait(Phase::RepeatedChild(c))
                }
            },
            (Phase::IdentifyingChild(_), Reply::Failed(f)) => Turn::Wait(Phase::Aborted(f)),
            (Phase::FailedChild(c, _), Reply::Done) => {
                let mut c = c;
                let ghost all = c@;
                let _ = c.pop();
                assert(places_view(c@) =~= places_view(all).drop_last());
                Turn::Child(c)
            },
            (Phase::RepeatedChild(c), Reply::Done) => {
                let mut c = c;
                let ghost all = c@;
                let _ = c.pop();
                assert(places_view(c@) =~= places_view(all).drop_last());
                Turn::Child(c)
            },
            (Phase::HeadingNext(p), Reply::Done) => Turn::Wait(Phase::OpeningNext(p)),
            (Phase::OpeningNext(p), Reply::Failed(f)) => Turn::Wait(Phase::ReportingNext(p, f)),
            (Phase::OpeningNext(p), Reply::Opened) => Turn::Wait(Phase::Contents(Some(p))),
            (Phase::ReportingNext(_, _), Reply::Done) => Turn::Child(Vec::new()),
            (Phase::Finishing, Reply::Done) => Turn::Wait(Phase::Finished),
            (phase, _) => Turn::Wait(phase),
        };
        if let Turn::Child(children) = turn {
            turn =
            if children.len() > 0 {
                Turn::Wait(Phase::ProbingChild(children))
            } else {
                assert(places_view(children@) =~= Seq::empty());
                let ghost waiting = stack@;
                match stack.pop() {
                    Some(p) => {
                        assert(places_view(stack@) =~= places_view(waiting).drop_last());
                        Turn::Wait(Phase::HeadingNext(p))
                    },
                    None => Turn::Operand(pos + 1),
                }
            };
        }
        let (pos, phase) = match turn {
            Turn::Operand(p) => {
                if p > pos {
                    listed = FxHashSet::default();
                    proof {
                        met@ = Seq::empty();
                    }
                }
                assert(listed@ =~= met@.to_set());
                if p >= count {
                    (p, Phase::Finishing)
                } else if walks {
                    (p, Phase::Walking)
                } else {
                    (p, Phase::OpeningOperand)
                }
            },
            Turn::Wait(phase) => (pos, phase),
            Turn::Child(_) => (pos, Phase::Finished),
        };
        Listing { recursive, walks, headed, no_files, dirs, pos, stack, listed, met, phase }
    }
}

} // verus!
