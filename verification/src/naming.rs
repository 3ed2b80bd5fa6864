//! Where sessions stand and what they and their harnesses are called.

use crate::discover;
use crate::draft;
use crate::ids;
use crate::json;
use crate::model;
use crate::model::{Brand, Harness, Session};
use crate::resume;
use crate::resume::Target;
use crate::text;
use std::path::PathBuf;
use std::time::SystemTime;
use vstd::prelude::*;

verus! {

/// The directories of sessions are named after where they were held: dashes stand for slashes, and
/// for CL for everything but ASCII letters and digits. Pi sets the name off by two dashes on either
/// side, OMP tells what lies below home from there.
pub proof fn lemma_slug(path: Seq<char>, home: Seq<char>, i: int)
    requires
        path.len() > 0,
        path[0] != '/',
    ensures
        ({
            let cwd = seq!['/'] + path;
            let dashes = Seq::new(
                path.len(),
                |k: int|
                    if path[k] == '/' {
                        '-'
                    } else {
                        path[k]
                    },
            );
            &&& model::slug(Harness::Factory, cwd, home) == seq!['-'] + dashes
            &&& model::slug(Harness::Pi, cwd, home) == "--"@ + dashes + "--"@
            &&& model::slug(Harness::Omp, home + cwd, home) == seq!['-'] + dashes
            &&& !text::begins(cwd, home) ==> model::slug(Harness::Omp, cwd, home) == seq!['-']
                + dashes
            &&& model::slug(Harness::Codex, cwd, home).len() == 0
        }),
        0 <= i < path.len() ==> model::slug(Harness::Claude, path, home).len() == path.len()
            && model::slug(Harness::Claude, path, home)[i] == if ('0' <= path[i] && path[i] <= '9')
            || ('A' <= path[i] && path[i] <= 'Z') || ('a' <= path[i] && path[i] <= 'z') {
            path[i]
        } else {
            '-'
        },
{
    let cwd = seq!['/'] + path;
    let dashes = Seq::new(
        path.len(),
        |k: int|
            if path[k] == '/' {
                '-'
            } else {
                path[k]
            },
    );
    assert(cwd.drop_first() =~= path);
    assert(model::trim_slashes(path) == path);
    assert(model::trim_slashes(cwd) == path);
    assert(model::dashed(path) =~= dashes);
    assert(model::dashed(cwd) =~= seq!['-'] + dashes);
    let below = home + cwd;
    assert(below.take(home.len() as int) =~= home);
    assert(below.skip(home.len() as int) =~= cwd);
    if home.len() == 0 {
        assert(below =~= cwd);
    } else {
        assert(below[home.len() as int] == '/');
    }
}

/// A path tells its harness by the directory that the harness keeps below home.
pub proof fn lemma_store_told(path: Seq<char>, brand: Brand)
    ensures
        ({
            let factory = text::within(path, ".factory"@);
            let pi = text::within(path, "/.pi/"@);
            let omp = text::within(path, "/.omp/"@);
            let cl = text::within(path, "/."@ + brand.name@ + "/"@);
            let codex = text::within(path, "/.codex/"@);
            let h = model::harness_of(path, brand);
            &&& factory ==> h == Some(Harness::Factory)
            &&& pi && !factory ==> h == Some(Harness::Pi)
            &&& omp && !factory && !pi ==> h == Some(Harness::Omp)
            &&& cl && !factory && !pi && !omp ==> h == Some(Harness::Claude)
            &&& codex && !factory && !pi && !omp && !cl ==> h == Some(Harness::Codex)
            &&& !factory && !pi && !omp && !cl && !codex ==> h is None
        }),
{
}

/// What is written for a harness is found where its sessions are looked for: the file's name is one
/// of a session, and but for Codex its directory is the one of the working directory.
pub proof fn lemma_written_found(
    h: Harness,
    id: Seq<char>,
    ts: Seq<char>,
    now_ms: u64,
    cwd: Seq<char>,
    home: Seq<char>,
)
    requires
        id.len() > 0,
        ts.len() >= 19,
    ensures
        discover::holds_session(h, draft::session_name(h, id, ts, now_ms)),
        h != Harness::Codex ==> draft::session_dir(h, cwd, home, ts) == model::slug(h, cwd, home),
        h == Harness::Codex ==> draft::session_dir(h, cwd, home, ts) == ts.take(4) + seq!['/']
            + ts.subrange(5, 7) + seq!['/'] + ts.subrange(8, 10),
        draft::session_stem(h, id, ts, now_ms).len() >= id.len() && draft::session_stem(
            h,
            id,
            ts,
            now_ms,
        ).skip(draft::session_stem(h, id, ts, now_ms).len() - id.len()) == id,
        draft::session_name(h, id, ts, now_ms) == draft::session_stem(h, id, ts, now_ms)
            + ".jsonl"@,
{
    let stem = draft::session_stem(h, id, ts, now_ms);
    let name = draft::session_name(h, id, ts, now_ms);
    reveal_strlit(".jsonl");
    reveal_strlit("rollout-");
    assert(name.skip(name.len() - ".jsonl"@.len()) =~= ".jsonl"@);
    assert(stem.skip(stem.len() - id.len()) =~= id);
    assert(ts.subrange(0, 4) =~= ts.take(4));
    assert(name.len() > 6);
    if h == Harness::Codex {
        assert(name.take(8) =~= "rollout-"@);
    }
}

/// A file may hold a session where its name ends in `.jsonl` with something before it; one of Codex
/// begins with `rollout-` too.
pub proof fn lemma_session_names(h: Harness, stem: Seq<char>, other: Seq<char>)
    ensures
        stem.len() > 0 && h != Harness::Codex ==> discover::holds_session(h, stem + ".jsonl"@),
        discover::holds_session(Harness::Codex, "rollout-"@ + stem + ".jsonl"@),
        stem.len() >= 8 && stem.take(8) != "rollout-"@ ==> !discover::holds_session(
            Harness::Codex,
            stem + ".jsonl"@,
        ),
        other.len() > 0 && other.last() != 'l' ==> !discover::holds_session(h, other),
        !discover::holds_session(h, ".jsonl"@),
{
    reveal_strlit(".jsonl");
    reveal_strlit("rollout-");
    let a = stem + ".jsonl"@;
    assert(a.skip(a.len() - 6) =~= ".jsonl"@);
    let b = "rollout-"@ + stem + ".jsonl"@;
    assert(b.skip(b.len() - 6) =~= ".jsonl"@);
    assert(b.take(8) =~= "rollout-"@);
    assert(b.len() > 6);
    assert(a.len() == stem.len() + 6);
    if stem.len() >= 8 {
        assert(a.take(8) =~= stem.take(8));
    }
    if other.len() >= 6 {
        let t = other.skip(other.len() - 6);
        assert(t[5] == other.last());
        assert(".jsonl"@[5] == 'l');
    }
}

/// The listed places are those of the names that may hold a session, in order.
pub proof fn lemma_places(h: Harness, names: Seq<Seq<char>>, i: int)
    ensures
        ({
            let ps = discover::session_places(h, names);
            &&& forall|j: int, k: int| 0 <= j < k < ps.len() ==> #[trigger] ps[j] < #[trigger] ps[k]
            &&& forall|j: int|
                0 <= j < ps.len() ==> 0 <= #[trigger] ps[j] < names.len()
                    && discover::holds_session(h, names[ps[j]])
            &&& 0 <= i < names.len() && discover::holds_session(h, names[i]) ==> ps.contains(i)
        }),
    decreases names.len(),
{
    let ps = discover::session_places(h, names);
    if names.len() > 0 {
        let before = names.drop_last();
        lemma_places(h, before, i);
        let some = discover::session_places(h, before);
        let n = names.len() - 1;
        assert forall|j: int| 0 <= j < ps.len() implies 0 <= #[trigger] ps[j] < names.len()
            && discover::holds_session(h, names[ps[j]]) by {
            if j < some.len() {
                assert(ps[j] == some[j]);
                assert(before[some[j]] == names[some[j]]);
            }
        }
        assert forall|j: int, k: int| 0 <= j < k < ps.len() implies #[trigger] ps[j]
            < #[trigger] ps[k] by {
            assert(ps[j] == some[j]);
            if k < some.len() {
                assert(ps[k] == some[k]);
            }
        }
        if 0 <= i < names.len() && discover::holds_session(h, names[i]) {
            if i < n {
                assert(before[i] == names[i]);
                let k = choose|k: int| 0 <= k < some.len() && some[k] == i;
                assert(ps[k] == i);
            } else {
                assert(ps[some.len() as int] == n);
            }
        }
    }
}

/// A session is resumed by its harness' own command: Pi and OMP find it by its file, the others by
/// its id. A copy that was written is resumed in its place.
pub proof fn lemma_commands(
    path: PathBuf,
    id: Seq<char>,
    sess: Session,
    copy: Option<(PathBuf, String)>,
    brand: Brand,
)
    ensures
        resume::bin_of(Harness::Factory, brand) == "droid"@ && resume::flag_of(Harness::Factory)
            == "-r"@ && resume::handle_of(Harness::Factory, path, id) == model::path_of(id),
        resume::bin_of(Harness::Pi, brand) == "pi"@ && resume::flag_of(Harness::Pi) == "--session"@
            && resume::handle_of(Harness::Pi, path, id) == path,
        resume::bin_of(Harness::Omp, brand) == "omp"@ && resume::flag_of(Harness::Omp)
            == "--resume"@ && resume::handle_of(Harness::Omp, path, id) == path,
        resume::bin_of(Harness::Claude, brand) == brand.name@ && resume::flag_of(Harness::Claude)
            == "--resume"@ && resume::handle_of(Harness::Claude, path, id) == model::path_of(id),
        resume::bin_of(Harness::Codex, brand) == "codex"@ && resume::flag_of(Harness::Codex)
            == "resume"@ && resume::handle_of(Harness::Codex, path, id) == model::path_of(id),
        copy is None ==> resume::resumed(sess, copy) == (sess.path, sess.id@),
        copy matches Some(c) ==> resume::resumed(sess, copy) == (c.0, c.1@),
{
}

/// A target stands for its harness, whichever the session's own is; without one, a session is
/// resumed in its own. No two harnesses or targets have the same label.
pub proof fn lemma_targets(own: Harness, a: Target, b: Target, g: Harness, h: Harness)
    ensures
        Target::Auto.harness_for(own) == own,
        Target::Factory.harness_for(own) == Harness::Factory,
        Target::Pi.harness_for(own) == Harness::Pi,
        Target::Omp.harness_for(own) == Harness::Omp,
        Target::Claude.harness_for(own) == Harness::Claude,
        Target::Codex.harness_for(own) == Harness::Codex,
        a != b ==> a.label_text() != b.label_text(),
        g != h ==> g.label_text() != h.label_text(),
        a != Target::Auto ==> a.label_text() == a.harness_for(own).label_text(),
{
    reveal_strlit("AUTO");
    reveal_strlit("FAC");
    reveal_strlit("PI");
    reveal_strlit("OMP");
    reveal_strlit("CL");
    reveal_strlit("CX");
    assert("FAC"@[0] == 'F');
    assert("OMP"@[0] == 'O');
    assert("PI"@[0] == 'P');
    assert("CL"@[1] == 'L');
    assert("CX"@[1] == 'X');
    assert("CL"@[0] == 'C');
    assert("CX"@[0] == 'C');
}

/// An id of version four keeps every random digit but those of the version and the variant, so ids
/// from draws that differ elsewhere differ. A short id is the first eight digits.
pub proof fn lemma_ids(h: Seq<char>, i: int)
    requires
        h.len() == 32,
        0 <= i < 32,
    ensures
        ({
            let s = ids::v4(h);
            let j = if i < 8 {
                i
            } else if i < 12 {
                i + 1
            } else if i < 16 {
                i + 2
            } else if i < 20 {
                i + 3
            } else {
                i + 4
            };
            &&& s.len() == 36
            &&& i != 12 && i != 16 ==> s[j] == h[i]
        }),
        ids::short(h) == h.take(8),
{
    ids::lemma_v4_kept(h, i);
}

/// Bytes in hexadecimal: the high half of each first.
pub proof fn lemma_hex(a: Seq<u8>, b: u8)
    ensures
        model::hex_of(a.push(b)) == model::hex_of(a) + seq![
            json::hex_digit((b / 16) as nat),
            json::hex_digit((b % 16) as nat),
        ],
        model::hex_of(Seq::empty()) == Seq::<char>::empty(),
        json::hex_digit(0) == '0' && json::hex_digit(9) == '9' && json::hex_digit(10) == 'a'
            && json::hex_digit(15) == 'f',
{
    assert(a.push(b).drop_last() =~= a);
    assert(model::hex_of(a.push(b)) =~= model::hex_of(a) + seq![
        json::hex_digit((b / 16) as nat),
        json::hex_digit((b % 16) as nat),
    ]);
}

/// A session's id is a dashed UUID for Factory, CL and Codex, and plain digits for Pi and OMP.
pub proof fn lemma_session_ids(draw: [u8; 16])
    ensures
        ids::is_v4(draft::session_id(Harness::Factory, draw)),
        ids::is_v4(draft::session_id(Harness::Claude, draw)),
        ids::is_v4(draft::session_id(Harness::Codex, draw)),
        draft::session_id(Harness::Pi, draw) == model::hex_of(draw@),
        draft::session_id(Harness::Omp, draw) == model::hex_of(draw@),
{
    model::lemma_hex_of(draw@);
    ids::lemma_v4_shape(model::hex_of(draw@));
}

/// An age is told in the largest unit that fits: minutes up to an hour, hours up to a day, days up
/// to thirty, weeks up to a year, then years; always rounded down.
pub proof fn lemma_age(n: u64, secs: u64)
    ensures
        model::age_text(None) == "now"@,
        secs < 60 ==> model::age_text(Some(secs)) == "just now"@,
        60 <= secs < 3600 && n * 60 <= secs < (n + 1) * 60 ==> model::age_text(Some(secs))
            == text::decimal(n as nat) + "m ago"@,
        3600 <= secs < 86_400 && n * 3600 <= secs < (n + 1) * 3600 ==> model::age_text(Some(secs))
            == text::decimal(n as nat) + "h ago"@,
        86_400 <= secs < 2_592_000 && n * 86_400 <= secs < (n + 1) * 86_400 ==> model::age_text(
            Some(secs),
        ) == text::decimal(n as nat) + "d ago"@,
        2_592_000 <= secs < 31_536_000 && n * 604_800 <= secs < (n + 1) * 604_800
            ==> model::age_text(Some(secs)) == text::decimal(n as nat) + "w ago"@,
        31_536_000 <= secs && n * 31_536_000 <= secs < (n + 1) * 31_536_000 ==> model::age_text(
            Some(secs),
        ) == text::decimal(n as nat) + "y ago"@,
{
}

proof fn lemma_hex_at(bytes: Seq<u8>, i: int)
    requires
        0 <= i < bytes.len(),
    ensures
        model::hex_of(bytes).len() == 2 * bytes.len(),
        model::hex_of(bytes)[2 * i] == json::hex_digit((bytes[i] / 16) as nat),
        model::hex_of(bytes)[2 * i + 1] == json::hex_digit((bytes[i] % 16) as nat),
    decreases bytes.len(),
{
    let before = bytes.drop_last();
    model::lemma_hex_of(before);
    model::lemma_hex_of(bytes);
    let some = model::hex_of(before);
    let all = model::hex_of(bytes);
    if i < before.len() {
        lemma_hex_at(before, i);
        assert(before[i] == bytes[i]);
        assert(all[2 * i] == some[2 * i]);
        assert(all[2 * i + 1] == some[2 * i + 1]);
    }
}

/// Draws that differ in one of the first four bytes give different ids, for sessions and records
/// alike.
pub proof fn lemma_ids_differ(a: [u8; 16], b: [u8; 16], i: int)
    requires
        0 <= i < 4,
        a@[i] != b@[i],
    ensures
        ids::v4(model::hex_of(a@)) != ids::v4(model::hex_of(b@)),
        ids::short(model::hex_of(a@)) != ids::short(model::hex_of(b@)),
        forall|h: Harness| #[trigger] draft::session_id(h, a) != draft::session_id(h, b),
{
    let x = model::hex_of(a@);
    let y = model::hex_of(b@);
    lemma_hex_at(a@, i);
    lemma_hex_at(b@, i);
    let j = if a@[i] / 16 != b@[i] / 16 {
        2 * i
    } else {
        2 * i + 1
    };
    assert(x[j] != y[j]);
    ids::lemma_v4_kept(x, j);
    ids::lemma_v4_kept(y, j);
    assert(ids::v4(x)[j] != ids::v4(y)[j]);
    assert(ids::short(x)[j] == x[j]);
    assert(ids::short(y)[j] == y[j]);
}

/// The name of a session's file: its id for Factory and CL, the time before it for Pi and OMP, and
/// for Codex `rollout-`, the timestamp with dashes for colons, and the id.
pub proof fn lemma_file_names(id: Seq<char>, ts: Seq<char>, now_ms: u64, i: int)
    requires
        ts.len() >= 19,
        0 <= i < 19,
    ensures
        draft::session_stem(Harness::Factory, id, ts, now_ms) == id,
        draft::session_stem(Harness::Claude, id, ts, now_ms) == id,
        draft::session_stem(Harness::Pi, id, ts, now_ms) == text::decimal(now_ms as nat).push('_')
            + id,
        draft::session_stem(Harness::Omp, id, ts, now_ms) == text::decimal(now_ms as nat).push('_')
            + id,
        ({
            let s = draft::session_stem(Harness::Codex, id, ts, now_ms);
            &&& s.len() == 28 + id.len()
            &&& s.take(8) == "rollout-"@
            &&& s[8 + i] == if ts[i] == ':' {
                '-'
            } else {
                ts[i]
            }
            &&& s[27] == '-'
            &&& s.skip(28) == id
        }),
{
    reveal_strlit("rollout-");
    let s = draft::session_stem(Harness::Codex, id, ts, now_ms);
    assert(s.take(8) =~= "rollout-"@);
    assert(s.skip(28) =~= id);
    assert(ts.subrange(0, 19)[i] == ts[i]);
    assert(draft::session_stem(Harness::Pi, id, ts, now_ms) =~= text::decimal(now_ms as nat).push(
        '_',
    ) + id);
    assert(draft::session_stem(Harness::Omp, id, ts, now_ms) =~= text::decimal(now_ms as nat).push(
        '_',
    ) + id);
}

/// A session is stamped with the time of its file, and with the present where that is not known;
/// a time before 1970 counts as 1970.
pub proof fn lemma_stamped(
    src: Session,
    m: SystemTime,
    now: SystemTime,
    d: std::time::Duration,
)
    ensures
        src.modified == Some(m) && model::time_since_epoch(m) == Some(d) ==> draft::stamped_at(
            src,
            now,
        ) == model::whole_secs(d),
        src.modified == Some(m) && model::time_since_epoch(m) is None ==> draft::stamped_at(
            src,
            now,
        ) == 0,
        src.modified is None && model::time_since_epoch(now) == Some(d) ==> draft::stamped_at(
            src,
            now,
        ) == model::whole_secs(d),
{
}

/// The title of CL is its name with a capital letter, and `Code`; its sessions are kept in
/// `projects`, below the hidden directory of its name.
pub proof fn lemma_brand(c: char, rest: Seq<char>, brand: Brand)
    ensures
        model::title_of(seq![c] + rest) == seq![model::capital(c)] + rest + " Code"@,
        model::capital('a') == 'A' && model::capital('m') == 'M' && model::capital('z') == 'Z',
        !('a' <= c && c <= 'z') ==> model::capital(c) == c,
        'a' <= c && c <= 'z' ==> model::capital(c) as int == c as int - 32,
        brand.place() == "."@ + brand.name@ + "/projects"@,
{
    assert((seq![c] + rest).skip(1) =~= rest);
}

/// A directory beside home whose name begins like it is not below home: OMP names it from the root,
/// and home itself by a single dash.
pub proof fn lemma_beside_home(above: Seq<char>, more: Seq<char>)
    requires
        above.len() > 0,
        above[0] != '/',
        above.last() != '/',
        more.len() > 0,
        more[0] != '/',
    ensures
        ({
            let home = seq!['/'] + above;
            &&& model::slug(Harness::Omp, home + more, home) == seq!['-'] + model::dashed(
                above + more,
            )
            &&& model::slug(Harness::Omp, home, home) == seq!['-']
        }),
{
    let home = seq!['/'] + above;
    let cwd = home + more;
    assert(cwd[home.len() as int] == more[0]);
    assert(home.last() == above.last());
    assert(cwd.drop_first() =~= above + more);
    assert(model::trim_slashes(above + more) == above + more);
    assert(home.take(home.len() as int) =~= home);
    assert(home.skip(home.len() as int) =~= Seq::empty());
    assert(model::dashed(Seq::empty()) =~= Seq::empty());
    assert(model::slug(Harness::Omp, home, home) =~= seq!['-']);
}

/// Leading slashes and how many there are do not matter to Pi.
pub proof fn lemma_slashes(path: Seq<char>, home: Seq<char>)
    ensures
        model::slug(Harness::Pi, seq!['/'] + path, home) == model::slug(Harness::Pi, path, home),
{
    assert((seq!['/'] + path).drop_first() =~= path);
}

/// The signs of a version 4 UUID: four dashes, the version, and one of the four variant digits.
pub proof fn lemma_uuid_signs(draw: [u8; 16])
    ensures
        ({
            let s = ids::v4(model::hex_of(draw@));
            &&& s.len() == 36
            &&& s[8] == '-' && s[13] == '-' && s[18] == '-' && s[23] == '-'
            &&& s[14] == '4'
            &&& s[19] == '8' || s[19] == '9' || s[19] == 'a' || s[19] == 'b'
        }),
{
    model::lemma_hex_of(draw@);
    ids::lemma_v4_shape(model::hex_of(draw@));
}

} // verus!
