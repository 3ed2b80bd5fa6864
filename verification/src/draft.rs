//! Writing canonical messages as a session of a harness.

use crate::entries;
use crate::history;
use crate::ids;
use crate::iso;
use crate::json;
use crate::json::{Json, Tree};
use crate::model;
use crate::model::{Harness, Msg, MsgV, Session, Store};
use crate::records;
use crate::records::{Ambient, Setting};
use crate::rollout;
use crate::roundtrip;
use crate::slot;
use crate::summary;
use crate::text;
use crate::turns;
use std::path::PathBuf;
use std::time::SystemTime;
use vstd::prelude::*;

verus! {

/// The first record of a Factory session.
pub open spec fn factory_start(w: Setting) -> Tree {
    json::empty_obj().with("type"@, Tree::Str("session_start"@)).with("id"@, Tree::Str(w.id)).with(
        "title"@,
        Tree::Str(w.title),
    ).with("isSessionTitleManuallySet"@, Tree::Bool(true)).with("owner"@, Tree::Str(w.owner)).with(
        "version"@,
        Tree::Pos(2),
    ).with("cwd"@, Tree::Str(w.cwd))
}

/// The first record of a Codex rollout.
pub open spec fn codex_meta(w: Setting) -> Tree {
    json::empty_obj().with("timestamp"@, Tree::Str(w.ts)).with("ordinal"@, Tree::Pos(0)).with(
        "type"@,
        Tree::Str("session_meta"@),
    ).with(
        "payload"@,
        json::empty_obj().with("session_id"@, Tree::Str(w.id)).with("id"@, Tree::Str(w.id)).with(
            "timestamp"@,
            Tree::Str(w.ts),
        ).with("cwd"@, Tree::Str(w.cwd)).with("originator"@, Tree::Str("bodysnatcher"@)).with(
            "cli_version"@,
            Tree::Str("0.147.0"@),
        ).with("source"@, Tree::Str("cli"@)).with(
            "model_provider"@,
            Tree::Str("bodysnatcher"@),
        ),
    )
}

/// The header of a Pi or OMP session.
pub open spec fn pi_header(w: Setting) -> Tree {
    json::empty_obj().with("type"@, Tree::Str("session"@)).with("version"@, Tree::Pos(3)).with(
        "id"@,
        Tree::Str(w.id),
    ).with("timestamp"@, Tree::Str(w.ts)).with("cwd"@, Tree::Str(w.cwd)).with(
        "title"@,
        Tree::Str(w.title),
    ).with("titleSource"@, Tree::Str("user"@))
}

/// The records that come before the messages.
pub open spec fn head_records(h: Harness, w: Setting) -> Seq<Tree> {
    match h {
        Harness::Factory => seq![factory_start(w)],
        Harness::Claude => Seq::empty(),
        Harness::Codex => seq![codex_meta(w)],
        Harness::Pi => seq![pi_header(w)],
        Harness::Omp => seq![slot::full_slot(w.title, w.ts), pi_header(w)],
    }
}

/// The records of the messages.
pub open spec fn message_records(h: Harness, w: Setting, msgs: Seq<MsgV>) -> Seq<Tree> {
    match h {
        Harness::Factory | Harness::Claude => turns::turn_records(h, w, msgs, 0, 0),
        Harness::Codex => rollout::codex_records(w, msgs, 0, 1),
        Harness::Pi | Harness::Omp => entries::pi_records(w, msgs, entries::calls_of(msgs), 0, 0),
    }
}

/// All records of a written session, in order.
pub open spec fn session_records(h: Harness, w: Setting, msgs: Seq<MsgV>) -> Seq<Tree> {
    head_records(h, w) + message_records(h, w, msgs)
}

/// The id of a new session.
pub open spec fn session_id(h: Harness, draw: [u8; 16]) -> Seq<char> {
    match h {
        Harness::Factory | Harness::Claude | Harness::Codex => ids::v4(model::hex_of(draw@)),
        Harness::Pi | Harness::Omp => model::hex_of(draw@),
    }
}

/// The directory of a new session below its store: by date for Codex, by workspace for the rest.
pub open spec fn session_dir(
    h: Harness,
    cwd: Seq<char>,
    home: Seq<char>,
    ts: Seq<char>,
) -> Seq<char> {
    match h {
        Harness::Codex => ts.subrange(0, 4) + seq!['/'] + ts.subrange(5, 7) + seq!['/']
            + ts.subrange(8, 10),
        _ => model::slug(h, cwd, home),
    }
}

/// The file name of a new session, without its extension.
pub open spec fn session_stem(h: Harness, id: Seq<char>, ts: Seq<char>, now_ms: u64) -> Seq<char> {
    match h {
        Harness::Codex => "rollout-"@ + text::replaced(ts.subrange(0, 19), ':', '-') + seq!['-']
            + id,
        Harness::Factory | Harness::Claude => id,
        Harness::Pi | Harness::Omp => text::decimal(now_ms as nat) + seq!['_'] + id,
    }
}

/// The file name of a new session.
pub open spec fn session_name(h: Harness, id: Seq<char>, ts: Seq<char>, now_ms: u64) -> Seq<char> {
    session_stem(h, id, ts, now_ms) + ".jsonl"@
}

fn new_id(h: Harness, draw: &[u8; 16]) -> (r: String)
    ensures
        r@ == session_id(h, *draw),
{
    match h {
        Harness::Factory | Harness::Claude | Harness::Codex => ids::uuid_v4(draw),
        Harness::Pi | Harness::Omp => model::uuid(draw),
    }
}

fn dir_name(h: Harness, cwd: &str, home: &str, ts: &str) -> (r: String)
    requires
        ts@.len() >= 19,
    ensures
        r@ == session_dir(h, cwd@, home@, ts@),
{
    match h {
        Harness::Codex => {
            let v = text::chars_of(ts);
            let mut r = text::slice(&v, 0, 4);
            r.push('/');
            let month = text::slice(&v, 5, 7);
            text::append(&mut r, month.as_str());
            r.push('/');
            let day = text::slice(&v, 8, 10);
            text::append(&mut r, day.as_str());
            proof {
                assert(r@ =~= session_dir(h, cwd@, home@, ts@));
            }
            r
        },
        _ => model::slug_for(h, cwd, home),
    }
}

fn file_name(h: Harness, id: &str, ts: &str, now_ms: u64) -> (r: String)
    requires
        ts@.len() >= 19,
    ensures
        r@ == session_name(h, id@, ts@, now_ms),
{
    let mut r = match h {
        Harness::Codex => {
            let v = text::chars_of(ts);
            let moment = text::slice(&v, 0, 19);
            let moment = text::replace(moment.as_str(), ':', '-');
            let mut r = "rollout-".to_owned();
            text::append(&mut r, moment.as_str());
            r.push('-');
            r
        },
        Harness::Factory | Harness::Claude => String::new(),
        Harness::Pi | Harness::Omp => {
            let mut r = text::to_decimal(now_ms);
            r.push('_');
            r
        },
    };
    text::append(&mut r, id);
    text::append(&mut r, ".jsonl");
    proof {
        assert(r@ =~= session_name(h, id@, ts@, now_ms));
    }
    r
}

fn start_json(src: &Session, id: &str, owner: &str) -> (r: Json)
    ensures
        forall|w: Setting|
            w.id == id@ && w.title == src.title@ && w.cwd == src.cwd@ && w.owner == owner@ ==> r@
                == #[trigger] factory_start(w),
{
    Json::object().with("type", Json::of_text("session_start")).with("id", Json::of_text(id)).with(
        "title",
        Json::of_text(src.title.as_str()),
    ).with("isSessionTitleManuallySet", Json::Bool(true)).with("owner", Json::of_text(owner)).with(
        "version",
        Json::Pos(2),
    ).with("cwd", Json::of_text(src.cwd.as_str()))
}

fn meta_json(src: &Session, id: &str, ts: &str) -> (r: Json)
    ensures
        forall|w: Setting|
            w.id == id@ && w.ts == ts@ && w.cwd == src.cwd@ ==> r@ == #[trigger] codex_meta(w),
{
    let payload = Json::object().with("session_id", Json::of_text(id)).with(
        "id",
        Json::of_text(id),
    ).with("timestamp", Json::of_text(ts)).with("cwd", Json::of_text(src.cwd.as_str())).with(
        "originator",
        Json::of_text("bodysnatcher"),
    ).with("cli_version", Json::of_text("0.147.0")).with("source", Json::of_text("cli")).with(
        "model_provider",
        Json::of_text("bodysnatcher"),
    );
    Json::object().with("timestamp", Json::of_text(ts)).with("ordinal", Json::Pos(0)).with(
        "type",
        Json::of_text("session_meta"),
    ).with("payload", payload)
}

fn header_json(src: &Session, id: &str, ts: &str) -> (r: Json)
    ensures
        forall|w: Setting|
            w.id == id@ && w.ts == ts@ && w.title == src.title@ && w.cwd == src.cwd@ ==> r@
                == #[trigger] pi_header(w),
{
    Json::object().with("type", Json::of_text("session")).with("version", Json::Pos(3)).with(
        "id",
        Json::of_text(id),
    ).with("timestamp", Json::of_text(ts)).with("cwd", Json::of_text(src.cwd.as_str())).with(
        "title",
        Json::of_text(src.title.as_str()),
    ).with("titleSource", Json::of_text("user"))
}

/// The lines of a session of `h` that holds `msgs`.
fn session_lines(
    h: Harness,
    src: &Session,
    msgs: &Vec<Msg>,
    id: &str,
    ts: &str,
    amb: &Ambient,
) -> (out: Vec<String>)
    requires
        amb.draws@.len() > msgs@.len(),
        slot::slot_len(Seq::empty(), ts@) <= slot::SLOT_BYTES,
    ensures
        records::are_lines(
            text::views(out@),
            session_records(
                h,
                records::setting(*src, id@, ts@, *amb),
                model::msg_views(msgs@),
            ),
        ),
        h == Harness::Codex ==> rollout::all_args_read(model::msg_views(msgs@)),
{
    let mut out: Vec<String> = Vec::new();
    let ghost w = records::setting(*src, id@, ts@, *amb);
    let ghost none: Seq<Tree> = Seq::empty();
    let ghost head = head_records(h, w);
    match h {
        Harness::Factory => {
            let rec = start_json(src, id, amb.owner.as_str());
            records::put_line(&mut out, &rec, Ghost(none));
            proof {
                assert(rec@ == factory_start(w));
                assert(none.push(rec@) =~= head);
            }
            turns::write_turns(h, src, msgs, id, ts, amb, &mut out, Ghost(head));
        },
        Harness::Claude => {
            turns::write_turns(h, src, msgs, id, ts, amb, &mut out, Ghost(head));
        },
        Harness::Codex => {
            let rec = meta_json(src, id, ts);
            records::put_line(&mut out, &rec, Ghost(none));
            proof {
                assert(rec@ == codex_meta(w));
                assert(none.push(rec@) =~= head);
            }
            rollout::write_items(src, msgs, id, ts, amb, &mut out, Ghost(head));
        },
        Harness::Pi => {
            let rec = header_json(src, id, ts);
            records::put_line(&mut out, &rec, Ghost(none));
            proof {
                assert(rec@ == pi_header(w));
                assert(none.push(rec@) =~= head);
            }
            entries::write_entries(src, msgs, id, ts, amb, &mut out, Ghost(head));
        },
        Harness::Omp => {
            let title = slot::title_slot(src.title.as_str(), ts);
            records::put_line(&mut out, &title, Ghost(none));
            let rec = header_json(src, id, ts);
            records::put_line(&mut out, &rec, Ghost(none.push(title@)));
            proof {
                assert(rec@ == pi_header(w));
                assert(none.push(title@).push(rec@) =~= head);
            }
            entries::write_entries(src, msgs, id, ts, amb, &mut out, Ghost(head));
        },
    }
    out
}

/// A session ready to be put on disk.
pub struct Draft {
    /// The session's id.
    pub id: String,
    /// The directory it goes into.
    pub dir: PathBuf,
    /// The file it goes into.
    pub path: PathBuf,
    /// The lines of the file, line feeds included.
    pub lines: Vec<String>,
}

/// `r` is the session of `h` with the timestamp of `secs` that holds `msgs`.
pub open spec fn is_draft(
    r: Draft,
    store: Store,
    h: Harness,
    src: Session,
    msgs: Seq<MsgV>,
    amb: Ambient,
    secs: u64,
) -> bool {
    let ts = iso::iso_of(secs);
    &&& r.id@ == session_id(h, amb.draws@[0])
    &&& r.dir == model::path_join(
        store.root_of(h),
        session_dir(h, src.cwd@, amb.home@, ts),
    )
    &&& r.path == model::path_join(r.dir, session_name(h, r.id@, ts, amb.now_ms))
    &&& records::are_lines(
        text::views(r.lines@),
        session_records(h, records::setting(src, r.id@, ts, amb), msgs),
    )
}

/// A summary of the written file has the session's id, and its working directory unless CL
/// has no message to say it with.
pub open spec fn named_back(
    r: Draft,
    h: Harness,
    src: Session,
    count: nat,
    ts: Seq<char>,
    now_ms: u64,
) -> bool {
    &&& summary::summary_of(
        h,
        text::views(r.lines@),
        true,
        Some(session_stem(h, r.id@, ts, now_ms)),
    ) matches Some(s)
    &&& s.id == r.id@
    &&& h != Harness::Claude || count > 0 ==> s.cwd == summary::or_else(src.cwd@, "?"@)
}

/// Reading the written file gives the messages that the harness carries, and a summary that names
/// the session. The arguments of tool calls must be such that JSON gives them back.
pub open spec fn reads_as(
    r: Draft,
    h: Harness,
    src: Session,
    msgs: Seq<MsgV>,
    ts: Seq<char>,
    now_ms: u64,
) -> bool {
    roundtrip::portable(h, msgs) ==> {
        &&& history::file_msgs(h, text::views(r.lines@)) == roundtrip::carried(h, msgs, ts)
        &&& named_back(r, h, src, msgs.len(), ts, now_ms)
    }
}

/// The session of `target` that holds `msgs`, stamped with a time in seconds since 1970.
pub fn write_at(
    store: &Store,
    target: Harness,
    src: &Session,
    msgs: &Vec<Msg>,
    amb: &Ambient,
    secs: u64,
) -> (r: Draft)
    requires
        amb.draws@.len() > msgs@.len(),
    ensures
        is_draft(r, *store, target, *src, model::msg_views(msgs@), *amb, secs),
        reads_as(r, target, *src, model::msg_views(msgs@), iso::iso_of(secs), amb.now_ms),
{
    let ts = iso::format_iso(secs);
    proof {
        iso::lemma_iso_shape(secs);
        slot::lemma_stamp_fits(secs);
    }
    let id = new_id(target, &amb.draws[0]);
    let dir_part = dir_name(target, src.cwd.as_str(), amb.home.as_str(), ts.as_str());
    let name = file_name(target, id.as_str(), ts.as_str(), amb.now_ms);
    let dir = model::join_path(store.root(target), dir_part.as_str());
    let path = model::join_path(&dir, name.as_str());
    let lines = session_lines(target, src, msgs, id.as_str(), ts.as_str(), amb);
    proof {
        let mv = model::msg_views(msgs@);
        if roundtrip::portable(target, mv) {
            roundtrip::lemma_roundtrip(
                target,
                records::setting(*src, id@, ts@, *amb),
                mv,
                text::views(lines@),
            );
            roundtrip::lemma_summary(
                target,
                records::setting(*src, id@, ts@, *amb),
                mv,
                text::views(lines@),
            );
        }
    }
    Draft { id, dir, path, lines }
}

/// The seconds from 1970 to a moment; none before.
pub open spec fn unix_secs(t: SystemTime) -> u64 {
    match model::time_since_epoch(t) {
        Some(d) => model::whole_secs(d),
        None => 0,
    }
}

fn secs_of(t: &SystemTime) -> (r: u64)
    ensures
        r == unix_secs(*t),
{
    match model::since_epoch(t) {
        Ok(d) => d.as_secs(),
        Err(_) => 0,
    }
}

/// The time that a session's records are stamped with: its file's, or now.
pub open spec fn stamped_at(src: Session, now: SystemTime) -> u64 {
    match src.modified {
        Some(m) => unix_secs(m),
        None => unix_secs(now),
    }
}

/// The session's own time in seconds since 1970; that of `now` where it has none.
pub fn secs_at(src: &Session, now: &SystemTime) -> (r: u64)
    ensures
        r == stamped_at(*src, *now),
{
    match &src.modified {
        Some(m) => secs_of(m),
        None => secs_of(now),
    }
}

/// The session's own time in seconds since 1970; the present where it has none.
pub fn session_secs(src: &Session) -> (r: u64)
    ensures
        exists|now: SystemTime| r == #[trigger] stamped_at(*src, now),
{
    let now = SystemTime::now();
    secs_at(src, &now)
}

/// A converted session for the target store. Reading it gives back what the target carries of the
/// messages.
pub fn write_session(
    store: &Store,
    target: Harness,
    src: &Session,
    msgs: &Vec<Msg>,
    amb: &Ambient,
) -> (r: Draft)
    requires
        amb.draws@.len() > msgs@.len(),
    ensures
        exists|now: SystemTime|
            is_draft(
                r,
                *store,
                target,
                *src,
                model::msg_views(msgs@),
                *amb,
                #[trigger] stamped_at(*src, now),
            ) && reads_as(
                r,
                target,
                *src,
                model::msg_views(msgs@),
                iso::iso_of(stamped_at(*src, now)),
                amb.now_ms,
            ),
{
    let secs = session_secs(src);
    write_at(store, target, src, msgs, amb, secs)
}

} // verus!
