//! The way through the directories, told by the steps that are asked for.
use crate::error::LsError;
use crate::meta::IoFailure;
use crate::traverse::{after, asks, places_view, sane, Answer, At, Course, Dir, Place, Reply, Step};
use vstd::prelude::*;

verus! {

/// Whether a place is this directory, in all that is known of it.
pub open spec fn is_dir(p: Place, d: Dir) -> bool {
    p.path@ == d.path && p.must_dereference == d.must_dereference && p.command_line
        == d.command_line
}

/// Whether a step reports that this directory could not be opened, and why.
pub open spec fn reports_failure(s: Step, d: Dir, f: IoFailure) -> bool {
    s matches Step::Report(LsError::IOErrorContext(path, told, command_line)) && path@ == d.path
        && told == f && command_line == d.command_line
}

/// Whether a listing has taken up the operand at `p`, or the end of the output
/// where there is none: the operand is walked where trees are, and opened otherwise.
pub open spec fn takes_up(c: Course, p: int, s: Step) -> bool {
    &&& c.pos == p
    &&& c.met.len() == 0
    &&& p >= c.dirs.len() ==> s is Finish
    &&& p < c.dirs.len() && c.walks ==> (s matches Step::Walk(place, at, no_files) && is_dir(
        place,
        c.dirs[p],
    ) && at == p && no_files == c.no_files)
    &&& p < c.dirs.len() && !c.walks ==> opens(c.dirs[p], s)
}

/// Whether a step asks to open this directory.
pub open spec fn opens(d: Dir, s: Step) -> bool {
    s matches Step::Open(path) && path@ == d.path
}

/// Whether a step asks which directory this is, following a link where the
/// directory was followed.
pub open spec fn identifies(d: Dir, s: Step) -> bool {
    s matches Step::Identify(path, follow) && path@ == d.path && follow == d.must_dereference
}

/// Whether a step asks for the entries of this directory.
pub open spec fn lists(d: Dir, s: Step) -> bool {
    s matches Step::Contents(path) && path@ == d.path
}

/// Whether a step asks for the heading of this directory.
pub open spec fn heads(d: Dir, is_first: bool, s: Step) -> bool {
    s matches Step::Heading(place, first) && is_dir(place, d) && first == is_first
}

/// Whether a listing goes on where no child of a directory is left: with the
/// directory that waits on top, if there is one, and otherwise with the next operand.
pub open spec fn goes_on(before: Course, c: Course, s: Step) -> bool {
    if before.stack.len() > 0 {
        &&& heads(before.stack.last(), false, s)
        &&& c.stack == before.stack.drop_last()
        &&& c.pos == before.pos
        &&& c.met == before.met
    } else {
        takes_up(c, before.pos + 1, s)
    }
}

/// Whether a listing goes on with the last of these children, or without any.
pub open spec fn goes_on_with(before: Course, children: Seq<Dir>, c: Course, s: Step) -> bool {
    if children.len() > 0 {
        &&& opens(children.last(), s)
        &&& c.at == At::ProbingChild(children)
        &&& c.stack == before.stack
        &&& c.pos == before.pos
        &&& c.met == before.met
    } else {
        goes_on(before, c, s)
    }
}

/// What a listing is about never changes.
pub proof fn law_listing_keeps_its_settings(c: Course, answer: Answer)
    ensures
        ({
            let n = after(c, answer);
            &&& n.recursive == c.recursive && n.walks == c.walks
            &&& n.headed == c.headed && n.no_files == c.no_files
            &&& n.dirs == c.dirs
            &&& n.pos == c.pos || n.pos == c.pos + 1
        }),
{
}

/// The output is begun, and then the first operand is taken up.
pub proof fn law_first_operand_follows_the_beginning(c: Course, first: Step, second: Step)
    requires
        sane(c),
        c.at == At::Beginning,
        first@ == asks(c),
        second@ == asks(after(c, Reply::Done@)),
    ensures
        first is Begin,
        takes_up(after(c, Reply::Done@), 0, second),
{
}

/// An operand whose tree was walked is done with; one whose tree was not is opened;
/// and a failure to walk it ends the listing.
pub proof fn law_walked_operands_are_done(
    c: Course,
    f: IoFailure,
    walked: Step,
    unwalked: Step,
    failed: Step,
)
    requires
        sane(c),
        c.at == At::Walking,
        walked@ == asks(after(c, Reply::Walked(true)@)),
        unwalked@ == asks(after(c, Reply::Walked(false)@)),
        failed@ == asks(after(c, Reply::Failed(f)@)),
    ensures
        takes_up(after(c, Reply::Walked(true)@), c.pos + 1, walked),
        opens(c.dirs[c.pos], unwalked),
        failed == Step::Abort(f),
{
}

/// An operand that cannot be opened is reported, and the next one is taken up.
pub proof fn law_unopened_operands_are_reported(c: Course, f: IoFailure, first: Step, second: Step)
    requires
        sane(c),
        c.at == At::OpeningOperand,
        first@ == asks(after(c, Reply::Failed(f)@)),
        second@ == asks(after(after(c, Reply::Failed(f)@), Reply::Done@)),
    ensures
        reports_failure(first, c.dirs[c.pos], f),
        takes_up(after(after(c, Reply::Failed(f)@), Reply::Done@), c.pos + 1, second),
{
}

/// Whether a listing has come to the contents of an operand: where it goes below
/// directories it is asked first which directory this is.
pub open spec fn comes_to_contents(c: Course, s: Step) -> bool {
    if c.recursive {
        identifies(c.dirs[c.pos], s)
    } else {
        lists(c.dirs[c.pos], s)
    }
}

/// An operand that was opened has its heading, where there are headings, and then
/// its contents; its heading comes first where it is the first operand and no file
/// stands before it.
pub proof fn law_opened_operands_are_headed_and_listed(
    c: Course,
    first: Step,
    second: Step,
)
    requires
        sane(c),
        c.at == At::OpeningOperand,
        first@ == asks(after(c, Reply::Opened@)),
        second@ == asks(after(after(c, Reply::Opened@), Reply::Done@)),
    ensures
        c.headed ==> {
            &&& heads(c.dirs[c.pos], c.pos == 0 && c.no_files, first)
            &&& comes_to_contents(c, second)
        },
        !c.headed ==> comes_to_contents(c, first),
{
}

/// An operand below which directories are listed is met before anything else there
/// is, and then listed; where it cannot be told which directory it is, the listing
/// ends.
pub proof fn law_operands_are_met_first(
    c: Course,
    dev: u64,
    ino: u64,
    f: IoFailure,
    found: Step,
    failed: Step,
)
    requires
        sane(c),
        c.at == At::IdentifyingOperand,
        found@ == asks(after(c, Reply::Id(dev, ino)@)),
        failed@ == asks(after(c, Reply::Failed(f)@)),
    ensures
        lists(c.dirs[c.pos], found),
        after(c, Reply::Id(dev, ino)@).met == seq![(dev, ino)],
        failed == Step::Abort(f),
{
}

/// The directories among the entries are taken up, the last one first, where the
/// listing goes below directories; otherwise none is.
pub proof fn law_children_are_taken_up(c: Course, d: Dir, children: Vec<Place>, s: Step)
    requires
        sane(c),
        c.at == At::Contents(d),
        s@ == asks(after(c, Reply::Children(children)@)),
    ensures
        c.recursive && children@.len() > 0 ==> {
            let last = children@[children@.len() - 1];
            &&& s matches Step::Open(path) && path@ == last.path@
            &&& after(c, Reply::Children(children)@).at == At::ProbingChild(places_view(children@))
            &&& after(c, Reply::Children(children)@).stack == c.stack
        },
        !c.recursive || children@.len() == 0 ==> goes_on(
            c,
            after(c, Reply::Children(children)@),
            s,
        ),
{
    assert(places_view(children@).len() == children@.len());
    if children@.len() > 0 {
        assert(places_view(children@).last() == children@[children@.len() - 1]@);
    }
}

/// A child that cannot be opened is reported and not listed.
pub proof fn law_unopened_children_are_reported(
    c: Course,
    children: Seq<Dir>,
    f: IoFailure,
    first: Step,
    second: Step,
)
    requires
        sane(c),
        c.at == At::ProbingChild(children),
        first@ == asks(after(c, Reply::Failed(f)@)),
        second@ == asks(after(after(c, Reply::Failed(f)@), Reply::Done@)),
    ensures
        reports_failure(first, children.last(), f),
        goes_on_with(
            c,
            children.drop_last(),
            after(after(c, Reply::Failed(f)@), Reply::Done@),
            second,
        ),
{
}

/// A child that was opened is identified. One that was met before is reported and
/// not listed; any other waits on top of those that wait, and is met from then on.
pub proof fn law_opened_children_wait_once(
    c: Course,
    children: Seq<Dir>,
    dev: u64,
    ino: u64,
    f: IoFailure,
    first: Step,
    second: Step,
    third: Step,
    failed: Step,
)
    requires
        sane(c),
        c.at == At::ProbingChild(children),
        ({
            let opened = after(c, Reply::Opened@);
            let found = after(opened, Reply::Id(dev, ino)@);
            &&& first@ == asks(opened)
            &&& second@ == asks(found)
            &&& third@ == asks(after(found, Reply::Done@))
            &&& failed@ == asks(after(opened, Reply::Failed(f)@))
        }),
    ensures
        identifies(children.last(), first),
        failed == Step::Abort(f),
        c.met.contains((dev, ino)) ==> {
            let found = after(after(c, Reply::Opened@), Reply::Id(dev, ino)@);
            &&& second matches Step::Report(LsError::AlreadyListedError(path)) && path@
                == children.last().path
            &&& goes_on_with(c, children.drop_last(), after(found, Reply::Done@), third)
        },
        !c.met.contains((dev, ino)) ==> goes_on_with(
            (Course {
                stack: c.stack.push(children.last()),
                met: c.met.push((dev, ino)),
                ..c
            }),
            children.drop_last(),
            after(after(c, Reply::Opened@), Reply::Id(dev, ino)@),
            second,
        ),
{
}

/// A directory that waited has its heading, is opened, and is listed; one that
/// cannot be opened any more is reported, and the listing goes on.
pub proof fn law_waiting_directories_are_headed_opened_and_listed(
    c: Course,
    d: Dir,
    f: IoFailure,
    first: Step,
    second: Step,
    opened: Step,
    failed: Step,
    further: Step,
)
    requires
        sane(c),
        c.at == At::HeadingNext(d),
        ({
            let opening = after(c, Reply::Done@);
            let reported = after(opening, Reply::Failed(f)@);
            &&& first@ == asks(c)
            &&& second@ == asks(opening)
            &&& opened@ == asks(after(opening, Reply::Opened@))
            &&& failed@ == asks(reported)
            &&& further@ == asks(after(reported, Reply::Done@))
        }),
    ensures
        heads(d, false, first),
        opens(d, second),
        lists(d, opened),
        reports_failure(failed, d, f),
        goes_on(
            c,
            after(after(after(c, Reply::Done@), Reply::Failed(f)@), Reply::Done@),
            further,
        ),
{
}

/// Once the output is finished, the listing is done.
pub proof fn law_listing_is_done_when_finished(c: Course, first: Step, second: Step)
    requires
        sane(c),
        c.at == At::Finishing,
        first@ == asks(c),
        second@ == asks(after(c, Reply::Done@)),
    ensures
        first is Finish,
        second is Done,
{
}

/// Whether a reply is one to what is waited for.
pub open spec fn is_awaited(at: At, reply: Reply) -> bool {
    match at {
        At::Walking => reply is Walked || reply is Failed,
        At::OpeningOperand | At::ProbingChild(_) | At::OpeningNext(_) => reply is Opened || reply
            is Failed,
        At::IdentifyingOperand | At::IdentifyingChild(_) => reply is Id || reply is Failed,
        At::Contents(_) => reply is Children,
        At::Finished | At::Aborted(_) => false,
        _ => reply is Done,
    }
}

/// A reply to what was not asked changes nothing.
pub proof fn law_stray_replies_change_nothing(c: Course, reply: Reply)
    requires
        !is_awaited(c.at, reply),
    ensures
        after(c, reply@) == c,
{
}

} // verus!
