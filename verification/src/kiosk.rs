//! The browser of the kiosk: which one, and how to start it under a Wayland
//! compositor.

use vstd::prelude::*;

use crate::text::{chars_of, int_text, is_space, push_chars, push_int, push_str, string_of, tdiv};
use crate::dedup::words;
use crate::grid::join;

verus! {

/// The two families of browsers, each with its own key to Wayland.
#[derive(Debug, Clone, Copy, PartialEq, Eq)]
pub enum Flavour {
    Chromium,
    Firefox,
}

/// What starts the browser: its command line, and the environment without
/// which it would not find Wayland. The URL is added at the end when it is
/// started.
#[derive(Debug, Clone)]
pub struct BrowserCmd {
    pub argv: Vec<String>,
    pub env: Vec<(String, String)>,
}

pub open spec fn string_seq(v: Seq<String>) -> Seq<Seq<char>> {
    Seq::new(v.len(), |k: int| v[k]@)
}

pub open spec fn env_seq(v: Seq<(String, String)>) -> Seq<(Seq<char>, Seq<char>)> {
    Seq::new(v.len(), |k: int| (v[k].0@, v[k].1@))
}

pub open spec fn flavour_argv(f: Flavour, bin: Seq<char>) -> Seq<Seq<char>> {
    match f {
        Flavour::Chromium => seq![
            bin,
            "--kiosk"@,
            "--ozone-platform=wayland"@,
            "--incognito"@,
            "--no-first-run"@,
            "--no-default-browser-check"@,
            "--disable-features=TranslateUI"@,
        ],
        Flavour::Firefox => seq![bin, "--kiosk"@, "--private-window"@],
    }
}

pub open spec fn flavour_env(f: Flavour) -> Seq<(Seq<char>, Seq<char>)> {
    match f {
        Flavour::Chromium => Seq::empty(),
        Flavour::Firefox => seq![("MOZ_ENABLE_WAYLAND"@, "1"@)],
    }
}

fn text(s: &str) -> (r: String)
    ensures
        r@ == s@,
{
    string_of(&chars_of(s))
}

impl Flavour {
    /// The command for this browser: full screen, and its Wayland key.
    pub fn command(self, bin: &str) -> (r: BrowserCmd)
        ensures
            string_seq(r.argv@) == flavour_argv(self, bin@),
            env_seq(r.env@) == flavour_env(self),
    {
        let mut argv: Vec<String> = Vec::new();
        let mut env: Vec<(String, String)> = Vec::new();
        argv.push(text(bin));
        match self {
            Flavour::Chromium => {
                argv.push(text("--kiosk"));
                argv.push(text("--ozone-platform=wayland"));
                argv.push(text("--incognito"));
                argv.push(text("--no-first-run"));
                argv.push(text("--no-default-browser-check"));
                argv.push(text("--disable-features=TranslateUI"));
            },
            Flavour::Firefox => {
                argv.push(text("--kiosk"));
                argv.push(text("--private-window"));
                env.push((text("MOZ_ENABLE_WAYLAND"), text("1")));
            },
        }
        assert(string_seq(argv@) =~= flavour_argv(self, bin@));
        assert(env_seq(env@) =~= flavour_env(self));
        BrowserCmd { argv, env }
    }
}

/// The number of browsers looked for.
pub const CANDIDATE_COUNT: usize = 7;

pub open spec fn candidate_spec(i: int) -> (Seq<char>, Flavour) {
    if i == 0 {
        ("chromium"@, Flavour::Chromium)
    } else if i == 1 {
        ("chromium-browser"@, Flavour::Chromium)
    } else if i == 2 {
        ("google-chrome-stable"@, Flavour::Chromium)
    } else if i == 3 {
        ("brave"@, Flavour::Chromium)
    } else if i == 4 {
        ("vivaldi-stable"@, Flavour::Chromium)
    } else if i == 5 {
        ("firefox"@, Flavour::Firefox)
    } else {
        ("firefox-esr"@, Flavour::Firefox)
    }
}

/// The browsers looked for, in order of preference.
pub fn candidate(i: usize) -> (r: (&'static str, Flavour))
    requires
        i < CANDIDATE_COUNT,
    ensures
        (r.0@, r.1) == candidate_spec(i as int),
{
    if i == 0 {
        ("chromium", Flavour::Chromium)
    } else if i == 1 {
        ("chromium-browser", Flavour::Chromium)
    } else if i == 2 {
        ("google-chrome-stable", Flavour::Chromium)
    } else if i == 3 {
        ("brave", Flavour::Chromium)
    } else if i == 4 {
        ("vivaldi-stable", Flavour::Chromium)
    } else if i == 5 {
        ("firefox", Flavour::Firefox)
    } else {
        ("firefox-esr", Flavour::Firefox)
    }
}

pub open spec fn no_browser_text() -> Seq<char> {
    "aucun navigateur trouvé. Installe-en un (par ex. « sudo pacman -S chromium ») ou précise-le dans config.toml :\n\n    [kiosk]\n    browser = \"mon-navigateur --kiosk\""@
}

fn split_words(s: &str) -> (r: Vec<String>)
    ensures
        string_seq(r@) == words(s@),
{
    let cs: Vec<char> = chars_of(s);
    let mut out: Vec<String> = Vec::new();
    let mut cur: Vec<char> = Vec::new();
    let mut i: usize = 0;
    assert(string_seq(out@) =~= Seq::<Seq<char>>::empty());
    while i < cs.len()
        invariant
            i <= cs@.len(),
            cs@ == s@,
            cur@.len() == 0 ==> string_seq(out@) == words(cs@.subrange(0, i as int)),
            cur@.len() > 0 ==> string_seq(out@).push(cur@) == words(cs@.subrange(0, i as int)),
            cur@.len() > 0 <==> (i > 0 && !is_space(cs@[i - 1])),
        decreases cs@.len() - i,
    {
        let c: char = cs[i];
        let ghost pre = cs@.subrange(0, i as int);
        let ghost next = cs@.subrange(0, i + 1);
        assert(next.drop_last() == pre);
        assert(next.last() == c);
        if i > 0 {
            assert(next[next.len() - 2] == cs@[i - 1]);
        }
        if crate::text::is_whitespace(c) {
            if cur.len() > 0 {
                let ghost before = string_seq(out@);
                out.push(string_of(&cur));
                assert(string_seq(out@) =~= before.push(cur@));
                cur = Vec::new();
            }
        } else {
            let ghost w = words(pre);
            if cur.len() > 0 {
                assert(w == string_seq(out@).push(cur@));
                assert(words(next) == w.update(w.len() - 1, w.last().push(c)));
                assert(w.update(w.len() - 1, w.last().push(c)) =~= string_seq(out@).push(cur@.push(c)));
            } else {
                assert(w == string_seq(out@));
                assert(words(next) == w.push(seq![c]));
                assert(cur@.push(c) =~= seq![c]);
            }
            cur.push(c);
        }
        i = i + 1;
    }
    assert(cs@.subrange(0, cs@.len() as int) == cs@);
    if cur.len() > 0 {
        let ghost before = string_seq(out@);
        out.push(string_of(&cur));
        assert(string_seq(out@) =~= before.push(cur@));
    }
    out
}

/// The command of the browser. The parent's choice, when set, is trusted as
/// it is (split into words; empty is refused); otherwise the first browser
/// found among the candidates (`found`), with its Wayland key.
pub fn browser_command(custom: Option<&str>, found: Option<(&str, Flavour)>) -> (r: Result<
    BrowserCmd,
    String,
>)
    ensures
        custom matches Some(c) ==> if words(c@).len() == 0 {
            r matches Err(m) && m@ == "[kiosk] browser est vide dans la configuration"@
        } else {
            r matches Ok(cmd) && string_seq(cmd.argv@) == words(c@) && cmd.env@.len() == 0
        },
        custom is None ==> match found {
            Some((bin, f)) => r matches Ok(cmd) && string_seq(cmd.argv@) == flavour_argv(f, bin@)
                && env_seq(cmd.env@) == flavour_env(f),
            None => r matches Err(m) && m@ == no_browser_text(),
        },
{
    if let Some(c) = custom {
        let argv: Vec<String> = split_words(c);
        if argv.len() == 0 {
            return Err(text("[kiosk] browser est vide dans la configuration"));
        }
        return Ok(BrowserCmd { argv, env: Vec::new() });
    }
    match found {
        Some((bin, f)) => Ok(f.command(bin)),
        None => Err(
            text(
                "aucun navigateur trouvé. Installe-en un (par ex. « sudo pacman -S chromium ») ou précise-le dans config.toml :\n\n    [kiosk]\n    browser = \"mon-navigateur --kiosk\"",
            ),
        ),
    }
}

pub open spec fn env_text(env: Seq<(Seq<char>, Seq<char>)>) -> Seq<char>
    decreases env.len(),
{
    if env.len() == 0 {
        Seq::empty()
    } else {
        env_text(env.drop_last()) + env.last().0 + seq!['='] + env.last().1 + seq![' ']
    }
}

impl BrowserCmd {
    /// The command as a line: `KEY=value ` for each variable, then the
    /// arguments joined by spaces.
    pub fn describe(&self) -> (r: String)
        ensures
            r@ == env_text(env_seq(self.env@)) + join(string_seq(self.argv@), ' '),
    {
        let mut out: Vec<char> = Vec::new();
        let ghost ev = env_seq(self.env@);
        let mut i: usize = 0;
        while i < self.env.len()
            invariant
                i <= self.env@.len(),
                ev == env_seq(self.env@),
                out@ == env_text(ev.subrange(0, i as int)),
            decreases self.env@.len() - i,
        {
            assert(ev.subrange(0, i + 1).drop_last() == ev.subrange(0, i as int));
            push_str(&mut out, self.env[i].0.as_str());
            out.push('=');
            push_str(&mut out, self.env[i].1.as_str());
            out.push(' ');
            i = i + 1;
        }
        assert(ev.subrange(0, self.env@.len() as int) == ev);
        let ghost pre = out@;
        let ghost av = string_seq(self.argv@);
        let mut j: usize = 0;
        assert(av.take(0) =~= Seq::<Seq<char>>::empty());
        while j < self.argv.len()
            invariant
                j <= self.argv@.len(),
                av == string_seq(self.argv@),
                out@ == pre + join(av.take(j as int), ' '),
            decreases self.argv@.len() - j,
        {
            assert(av.take(j + 1).drop_last() == av.take(j as int));
            if j > 0 {
                out.push(' ');
            } else {
                assert(av.take(1) =~= seq![av[0]]);
            }
            push_str(&mut out, self.argv[j].as_str());
            j = j + 1;
            assert(out@ =~= pre + join(av.take(j as int), ' '));
        }
        assert(av.take(self.argv@.len() as int) == av);
        string_of(&out)
    }
}

// ===== Waiting at the door ===================================================

/// What the lock of the server answers, as the kiosk reads it.
#[derive(Debug, Clone)]
pub struct GateReply {
    pub unlocked: bool,
    pub child_name: Option<String>,
    pub remaining_secs: i64,
}

/// The minutes won, rounded up: `(secs + 59) / 60`.
pub open spec fn minutes_up(secs: int) -> int {
    tdiv(secs + 59, 60)
}

proof fn lemma_minutes_up(r: int)
    requires
        r >= 0,
    ensures
        minutes_up(r) == r / 60 + if r % 60 != 0 {
            1int
        } else {
            0int
        },
{
    assert((r + 59) / 60 == r / 60 + if r % 60 != 0 {
        1int
    } else {
        0int
    }) by (nonlinear_arith)
        requires
            r >= 0,
    ;
}

fn minutes_won(secs: i64) -> (m: i64)
    ensures
        m == minutes_up(secs as int),
{
    if secs >= 0 {
        proof {
            lemma_minutes_up(secs as int);
        }
        let extra: i64 = if secs % 60 != 0 {
            1
        } else {
            0
        };
        secs / 60 + extra
    } else {
        assert(secs + 59 < 60);
        (secs + 59) / 60
    }
}

pub open spec fn winner_text(name: Option<String>) -> Seq<char> {
    match name {
        Some(n) => n@,
        None => "quelqu'un"@,
    }
}

fn winner(name: &Option<String>, out: &mut Vec<char>)
    ensures
        final(out)@ == old(out)@ + winner_text(*name),
{
    match name {
        Some(n) => push_str(out, n.as_str()),
        None => push_str(out, "quelqu'un"),
    }
}

pub open spec fn unlocked_text(g: GateReply) -> Seq<char> {
    "sesame-kiosk : débloqué pour "@ + winner_text(g.child_name) + " ("@ + int_text(
        minutes_up(g.remaining_secs as int),
    ) + " min) — on ouvre le bureau"@
}

pub open spec fn won_text(g: GateReply) -> Seq<char> {
    "sesame-kiosk : "@ + winner_text(g.child_name) + " a gagné "@ + int_text(
        minutes_up(g.remaining_secs as int),
    ) + " min — on ouvre le bureau"@
}

/// The verdict of `--check`: the desktop opens only on a living grant. A
/// locked computer is an error, so that the session script stops there.
pub fn check_verdict(g: &GateReply) -> (r: Result<String, String>)
    ensures
        g.unlocked ==> (r matches Ok(m) && m@ == unlocked_text(*g)),
        !g.unlocked ==> (r matches Err(m) && m@
            == "ordinateur verrouillé — aucune concession de temps vivante"@),
{
    if !g.unlocked {
        let m: Vec<char> = chars_of("ordinateur verrouillé — aucune concession de temps vivante");
        return Err(string_of(&m));
    }
    let mut m: Vec<char> = chars_of("sesame-kiosk : débloqué pour ");
    winner(&g.child_name, &mut m);
    push_str(&mut m, " (");
    let mins: i64 = minutes_won(g.remaining_secs);
    push_int(&mut m, mins);
    push_str(&mut m, " min) — on ouvre le bureau");
    Ok(string_of(&m))
}

/// What the kiosk does after one look at the lock.
#[derive(Debug, Clone)]
pub enum KioskAction {
    /// The computer is won: close the browser, say so, and leave with success.
    Open(String),
    /// The browser was closed while the door is shut: start it again.
    Relaunch,
    /// Nothing to do: look again after a while.
    Wait,
}

/// One turn of the kiosk. `reply` is what the server answered (`None` when the
/// server could not be reached: the kiosk does not die for that, the door
/// stays shut); `browser_exited` tells whether the browser is gone.
pub fn kiosk_step(reply: Option<&GateReply>, browser_exited: bool) -> (r: KioskAction)
    ensures
        (reply matches Some(g) && g.unlocked) ==> (r matches KioskAction::Open(m) && m@ == won_text(
            *reply.unwrap(),
        )),
        !(reply matches Some(g) && g.unlocked) ==> if browser_exited {
            r is Relaunch
        } else {
            r is Wait
        },
{
    if let Some(g) = reply {
        if g.unlocked {
            let mut m: Vec<char> = chars_of("sesame-kiosk : ");
            winner(&g.child_name, &mut m);
            push_str(&mut m, " a gagné ");
            let mins: i64 = minutes_won(g.remaining_secs);
            push_int(&mut m, mins);
            push_str(&mut m, " min — on ouvre le bureau");
            return KioskAction::Open(string_of(&m));
        }
    }
    if browser_exited {
        KioskAction::Relaunch
    } else {
        KioskAction::Wait
    }
}

} // verus!
