//! Resuming a session in a harness.

use crate::budget;
use crate::budget::Limits;
use crate::compact;
use crate::landing;
use crate::model;
use crate::model::{Brand, Harness, Msg, MsgV, Session};
use crate::text;
use std::path::{Path, PathBuf};
use vstd::prelude::*;

verus! {

/// Where a session is to be resumed.
#[derive(Clone, Copy, PartialEq, Eq, Debug, Structural)]
pub enum Target {
    Auto,
    Factory,
    Pi,
    Omp,
    Claude,
    Codex,
}

impl Target {
    pub open spec fn after(self) -> Target {
        match self {
            Target::Auto => Target::Codex,
            Target::Codex => Target::Claude,
            Target::Claude => Target::Omp,
            Target::Omp => Target::Pi,
            Target::Pi => Target::Factory,
            Target::Factory => Target::Auto,
        }
    }

    pub open spec fn label_text(self) -> Seq<char> {
        match self {
            Target::Auto => "AUTO"@,
            Target::Factory => "FAC"@,
            Target::Pi => "PI"@,
            Target::Omp => "OMP"@,
            Target::Claude => "CL"@,
            Target::Codex => "CX"@,
        }
    }

    pub open spec fn desc_text(self, brand: Brand) -> Seq<char> {
        match self {
            Target::Auto => "native harness"@,
            Target::Factory => "Factory Droid"@,
            Target::Pi => "Pi"@,
            Target::Omp => "OMP"@,
            Target::Claude => brand.title@,
            Target::Codex => "Codex"@,
        }
    }

    /// The harness that a target stands for: the session's own, or the one named.
    pub open spec fn harness_for(self, own: Harness) -> Harness {
        match self {
            Target::Auto => own,
            Target::Factory => Harness::Factory,
            Target::Pi => Harness::Pi,
            Target::Omp => Harness::Omp,
            Target::Claude => Harness::Claude,
            Target::Codex => Harness::Codex,
        }
    }

    pub fn next(self) -> (r: Target)
        ensures
            r == self.after(),
    {
        match self {
            Target::Auto => Target::Codex,
            Target::Codex => Target::Claude,
            Target::Claude => Target::Omp,
            Target::Omp => Target::Pi,
            Target::Pi => Target::Factory,
            Target::Factory => Target::Auto,
        }
    }

    pub fn label(self) -> (r: &'static str)
        ensures
            r@ == self.label_text(),
    {
        match self {
            Target::Auto => "AUTO",
            Target::Factory => "FAC",
            Target::Pi => "PI",
            Target::Omp => "OMP",
            Target::Claude => "CL",
            Target::Codex => "CX",
        }
    }

    pub fn desc<'a>(self, brand: &'a Brand) -> (r: &'a str)
        ensures
            r@ == self.desc_text(*brand),
    {
        match self {
            Target::Auto => "native harness",
            Target::Factory => "Factory Droid",
            Target::Pi => "Pi",
            Target::Omp => "OMP",
            Target::Claude => brand.title.as_str(),
            Target::Codex => "Codex",
        }
    }

    /// The harness that a target stands for: the session's own, or the one named.
    pub fn resolve(self, own: Harness) -> (r: Harness)
        ensures
            r == self.harness_for(own),
    {
        match self {
            Target::Auto => own,
            Target::Factory => Harness::Factory,
            Target::Pi => Harness::Pi,
            Target::Omp => Harness::Omp,
            Target::Claude => Harness::Claude,
            Target::Codex => Harness::Codex,
        }
    }

    /// The target that names a harness.
    pub fn of(h: Harness) -> (r: Target)
        ensures
            forall|own: Harness| r.harness_for(own) == h,
            r != Target::Auto,
    {
        match h {
            Harness::Factory => Target::Factory,
            Harness::Pi => Target::Pi,
            Harness::Omp => Target::Omp,
            Harness::Claude => Target::Claude,
            Harness::Codex => Target::Codex,
        }
    }
}

/// Cycling visits every target once before it comes back.
pub proof fn lemma_target_cycle(t: Target)
    ensures
        t.after().after().after().after().after().after() == t,
        t.after() != t,
        t.after().after() != t,
        t.after().after().after() != t,
        t.after().after().after().after() != t,
        t.after().after().after().after().after() != t,
{
}

/// The messages as they land in a target with those limits: compacted where they do not fit.
pub open spec fn fitted(msgs: Seq<MsgV>, lim: Option<Limits>) -> Seq<MsgV> {
    match lim {
        Some(l) => match compact::compacted(msgs, l) {
            Some(out) => out,
            None => msgs,
        },
        None => msgs,
    }
}

/// Whether messages have to be compacted to fit.
pub open spec fn too_large(msgs: Seq<MsgV>, lim: Option<Limits>) -> bool {
    match lim {
        Some(l) => !l.admits(budget::tokens(msgs) as int),
        None => false,
    }
}

/// Messages that fit their target.
pub struct Fit {
    pub msgs: Vec<Msg>,
    /// Whether they had to be compacted.
    pub compacted: bool,
    /// The note that says so, where their size can be told.
    pub note: Option<String>,
}

/// The note on messages that were compacted.
pub open spec fn fit_note(msgs: Seq<MsgV>, lim: Limits, target: Harness, brand: Brand) -> Option<
    Seq<char>,
> {
    if budget::tokens(fitted(msgs, Some(lim))) <= usize::MAX {
        Some(
            compact::report_text(
                msgs,
                fitted(msgs, Some(lim)),
                lim.window as nat,
                target,
                brand,
            ),
        )
    } else {
        None
    }
}

/// Makes messages fit their target; none where limits are set and their size cannot be told.
pub fn fit(msgs: Vec<Msg>, lim: Option<Limits>, target: Harness, brand: &Brand) -> (r: Option<Fit>)
    ensures
        match r {
            Some(f) => {
                &&& model::msg_views(f.msgs@) == fitted(model::msg_views(msgs@), lim)
                &&& f.compacted == too_large(model::msg_views(msgs@), lim)
                &&& f.compacted && lim->Some_0.budget >= landing::LEAST_BUDGET ==> budget::tokens(
                    model::msg_views(f.msgs@),
                ) <= lim->Some_0.budget
                &&& model::opt_view(f.note) == if f.compacted {
                    fit_note(model::msg_views(msgs@), lim->Some_0, target, *brand)
                } else {
                    None
                }
            },
            None => lim is Some && budget::tokens(model::msg_views(msgs@)) > usize::MAX,
        },
{
    let l = match lim {
        Some(l) => l,
        None => {
            return Some(Fit { msgs, compacted: false, note: None });
        },
    };
    match compact::try_compact(&msgs, l) {
        Some(c) => match c {
            Some(out) => {
                let note = match budget::tokens_upto(&out, usize::MAX) {
                    Some(_) => Some(compact::report(&msgs, &out, l, target, brand)),
                    None => None,
                };
                Some(Fit { msgs: out, compacted: true, note })
            },
            None => Some(Fit { msgs, compacted: false, note: None }),
        },
        None => None,
    }
}

/// The messages to write before a session is resumed in `h`; none where the session itself is
/// resumed. A session of another harness is converted; one that had to be compacted is written
/// even for its own harness.
pub fn to_write(own: Harness, h: Harness, f: Fit) -> (r: Option<Vec<Msg>>)
    ensures
        match r {
            Some(out) => (own != h || f.compacted) && out == f.msgs,
            None => own == h && !f.compacted,
        },
{
    if own == h && !f.compacted {
        None
    } else {
        Some(f.msgs)
    }
}

/// A session that fits is never compacted: it lands as it is, whether limits are set or not.
pub proof fn lemma_untouched(msgs: Seq<MsgV>, lim: Limits)
    requires
        lim.admits(budget::tokens(msgs) as int),
    ensures
        !too_large(msgs, Some(lim)),
        fitted(msgs, Some(lim)) == msgs,
        fitted(msgs, Some(lim)) == fitted(msgs, None),
{
}

/// Whether a session's file has to be read before it is resumed: for a conversion, or where it
/// may be too large for its own harness.
pub fn must_read(own: Harness, h: Harness, lim: Option<Limits>, bytes: Option<usize>) -> (r: bool)
    ensures
        r == (own != h || match lim {
            Some(l) => bytes is Some && !l.admits(bytes->Some_0 as int / 4),
            None => false,
        }),
{
    own != h || match lim {
        Some(l) => l.file_may_overflow(bytes),
        None => false,
    }
}

/// The harness that a file is converted from: the one named, or the one whose store it lies in.
pub fn source_of(from: Option<Harness>, file: &Path, brand: &Brand) -> (r: Option<Harness>)
    ensures
        r == match from {
            Some(h) => Some(h),
            None => model::harness_of(text::lowercase(model::path_text(file)), *brand),
        },
{
    match from {
        Some(h) => Some(h),
        None => Harness::infer_from_path(file, brand),
    }
}

/// What a conversion says when it is done.
pub open spec fn done_text(
    from: Seq<char>,
    title: Seq<char>,
    msgs: nat,
    out: Seq<char>,
) -> Seq<char> {
    "bodysnatcher: "@ + from + " session \""@ + title + "\" ("@ + text::decimal(msgs)
        + " msgs) -> "@ + out
}

/// One-line note that a session was converted.
pub fn done_note(from: Harness, title: &str, msgs: usize, out: &Path, brand: &Brand) -> (r: String)
    ensures
        r@ == done_text(from.full_text(*brand), title@, msgs as nat, model::path_text(out)),
{
    let mut r = "bodysnatcher: ".to_owned();
    text::append(&mut r, from.full(brand));
    text::append(&mut r, " session \"");
    text::append(&mut r, title);
    text::append(&mut r, "\" (");
    let n = text::to_decimal(msgs as u64);
    text::append(&mut r, n.as_str());
    text::append(&mut r, " msgs) -> ");
    let path = model::lossy(out);
    text::append(&mut r, path.as_str());
    r
}

/// A program and its arguments.
pub struct Command {
    pub bin: String,
    pub args: Vec<PathBuf>,
}

/// The program of a harness.
pub open spec fn bin_of(h: Harness, brand: Brand) -> Seq<char> {
    match h {
        Harness::Factory => "droid"@,
        Harness::Pi => "pi"@,
        Harness::Omp => "omp"@,
        Harness::Claude => brand.name@,
        Harness::Codex => "codex"@,
    }
}

/// The argument that makes a harness resume a session.
pub open spec fn flag_of(h: Harness) -> Seq<char> {
    match h {
        Harness::Factory => "-r"@,
        Harness::Pi => "--session"@,
        Harness::Omp => "--resume"@,
        Harness::Claude => "--resume"@,
        Harness::Codex => "resume"@,
    }
}

/// What a harness finds a session by: Pi and OMP by its file, the rest by its id.
pub open spec fn handle_of(h: Harness, path: PathBuf, id: Seq<char>) -> PathBuf {
    match h {
        Harness::Pi | Harness::Omp => path,
        _ => model::path_of(id),
    }
}

/// File and id of what is resumed: the copy that was written, or the session itself.
pub open spec fn resumed(sess: Session, copy: Option<(PathBuf, String)>) -> (PathBuf, Seq<char>) {
    match copy {
        Some(c) => (c.0, c.1@),
        None => (sess.path, sess.id@),
    }
}

/// The resume command for a session: of the copy that was written, or of the session itself.
/// Auto = native resume of the session's own harness.
pub fn build(
    sess: &Session,
    target: Target,
    copy: Option<(PathBuf, String)>,
    brand: &Brand,
) -> (r: Command)
    requires
        target.harness_for(sess.harness) != sess.harness ==> copy is Some,
    ensures
        ({
            let h = target.harness_for(sess.harness);
            let (path, id) = resumed(*sess, copy);
            &&& r.bin@ == bin_of(h, *brand)
            &&& r.args@ == seq![model::path_of(flag_of(h)), handle_of(h, path, id)]
        }),
{
    let h = target.resolve(sess.harness);
    let ghost (p, i) = resumed(*sess, copy);
    let (path, id) = match copy {
        Some(c) => c,
        None => (sess.path.clone(), sess.id.clone()),
    };
    let (bin, flag) = match h {
        Harness::Factory => ("droid", "-r"),
        Harness::Pi => ("pi", "--session"),
        Harness::Omp => ("omp", "--resume"),
        Harness::Claude => (brand.name.as_str(), "--resume"),
        Harness::Codex => ("codex", "resume"),
    };
    let handle = match h {
        Harness::Pi | Harness::Omp => path,
        _ => model::path_from(id.as_str()),
    };
    let mut args: Vec<PathBuf> = Vec::new();
    args.push(model::path_from(flag));
    args.push(handle);
    proof {
        assert(args@ =~= seq![model::path_of(flag_of(h)), handle_of(h, p, i)]);
    }
    Command { bin: bin.to_owned(), args }
}

/// How a native resume reads.
pub open spec fn native_text(h: Harness, brand: Brand) -> Seq<char> {
    match h {
        Harness::Factory => "droid -r"@,
        Harness::Pi => "pi --session"@,
        Harness::Omp => "omp --resume"@,
        Harness::Claude => brand.name@ + " --resume"@,
        Harness::Codex => "codex resume"@,
    }
}

/// A native resume reads as the command that is run for it.
pub proof fn lemma_native_text(h: Harness, brand: Brand)
    ensures
        native_text(h, brand) == bin_of(h, brand) + seq![' '] + flag_of(h),
{
    reveal_strlit("droid -r");
    reveal_strlit("pi --session");
    reveal_strlit("omp --resume");
    reveal_strlit(" --resume");
    reveal_strlit("codex resume");
    reveal_strlit("droid");
    reveal_strlit("pi");
    reveal_strlit("omp");
    reveal_strlit("codex");
    reveal_strlit("-r");
    reveal_strlit("--session");
    reveal_strlit("--resume");
    reveal_strlit("resume");
    assert(native_text(h, brand) =~= bin_of(h, brand) + seq![' '] + flag_of(h));
}

/// What resuming a session of one harness in another means, in words.
pub open spec fn described(own: Harness, h: Harness, brand: Brand) -> Seq<char> {
    if own == h {
        own.full_text(brand) + " -> "@ + native_text(h, brand) + " (native)"@
    } else {
        own.full_text(brand) + " -> "@ + h.full_text(brand) + " (convert)"@
    }
}

/// Human-readable summary of what resume does.
pub fn describe(sess: &Session, target: Target, brand: &Brand) -> (r: String)
    ensures
        r@ == described(sess.harness, target.harness_for(sess.harness), *brand),
{
    let h = target.resolve(sess.harness);
    let mut r = sess.harness.full(brand).to_owned();
    text::append(&mut r, " -> ");
    if h == sess.harness {
        let (bin, rest) = match h {
            Harness::Factory => ("droid -r", ""),
            Harness::Pi => ("pi --session", ""),
            Harness::Omp => ("omp --resume", ""),
            Harness::Claude => (brand.name.as_str(), " --resume"),
            Harness::Codex => ("codex resume", ""),
        };
        let ghost before = r@;
        text::append(&mut r, bin);
        text::append(&mut r, rest);
        proof {
            reveal_strlit("");
            assert(r@ =~= before + native_text(h, *brand));
        }
        text::append(&mut r, " (native)");
    } else {
        text::append(&mut r, h.full(brand));
        text::append(&mut r, " (convert)");
    }
    r
}

} // verus!
