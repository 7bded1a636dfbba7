//! The settings Grove keeps: which project was open last, and for each
//! project its storage mode, its tracked paths and its current chapter.

use vstd::prelude::*;
use crate::text::views;

verus! {

/// How a snapshot stores its items.
#[derive(Clone, Copy, PartialEq, Eq, Structural, Debug)]
pub enum Mode {
    /// Every item at the top of the snapshot, under its own name.
    Flat,
    /// Every item under its original path, relative to the folder all items share.
    Labyrinth,
}

/// The other mode.
pub open spec fn other_mode(m: Mode) -> Mode {
    match m {
        Mode::Flat => Mode::Labyrinth,
        Mode::Labyrinth => Mode::Flat,
    }
}

impl Mode {
    /// The other mode (what `labyrinth` toggles to, what `convert` converts to).
    pub fn toggled(self) -> (r: Mode)
        ensures
            r == other_mode(self),
            r != self,
    {
        match self {
            Mode::Flat => Mode::Labyrinth,
            Mode::Labyrinth => Mode::Flat,
        }
    }

    /// The mode's name as it is shown to the user.
    pub fn name(self) -> (r: &'static str)
        ensures
            self == Mode::Flat ==> r@ == "Flat"@,
            self == Mode::Labyrinth ==> r@ == "Labyrinth"@,
    {
        match self {
            Mode::Flat => "Flat",
            Mode::Labyrinth => "Labyrinth",
        }
    }
}

impl Default for Mode {
    fn default() -> (r: Mode)
        ensures
            r == Mode::Flat,
    {
        Mode::Flat
    }
}

/// Law: toggling the mode twice gives the mode back.
pub proof fn lemma_toggle_twice(m: Mode)
    ensures
        other_mode(other_mode(m)) == m,
        other_mode(m) != m,
{
}

/// The mode after toggling `m` `t` times.
pub open spec fn toggled_times(m: Mode, t: nat) -> Mode
    decreases t,
{
    if t == 0 {
        m
    } else {
        other_mode(toggled_times(m, (t - 1) as nat))
    }
}

/// Law: toggling the mode `t` times gives it back exactly when `t` is even.
pub proof fn lemma_toggled_times(m: Mode, t: nat)
    ensures
        toggled_times(m, t) == if t % 2 == 0 {
            m
        } else {
            other_mode(m)
        },
        toggled_times(m, t) == m <==> t % 2 == 0,
    decreases t,
{
    if t > 0 {
        lemma_toggled_times(m, (t - 1) as nat);
    }
}

/// Grove's own settings.
#[derive(Debug)]
pub struct GroveConfig {
    /// The project opened last, reopened at start.
    pub last_opened_project: Option<String>,
}

impl Default for GroveConfig {
    fn default() -> (r: GroveConfig)
        ensures
            r.last_opened_project is None,
    {
        GroveConfig { last_opened_project: None }
    }
}

/// A project's settings.
#[derive(Debug)]
pub struct ProjectConfig {
    /// How new snapshots store their items.
    pub mode: Mode,
    /// The tracked files and folders.
    pub paths: Vec<String>,
    /// 0 while the project has no chapters; otherwise the chapter new
    /// snapshots go into (the first migration goes from 0 straight to 2).
    pub current_chapter: usize,
}

impl Default for ProjectConfig {
    fn default() -> (r: ProjectConfig)
        ensures
            r.mode == Mode::Flat,
            r.paths@.len() == 0,
            r.current_chapter == 0,
    {
        ProjectConfig { mode: Mode::Flat, paths: Vec::new(), current_chapter: 0 }
    }
}

/// The settings of a duplicate of a project: same mode and paths, no chapters.
pub fn duplicate_config(cfg: &ProjectConfig) -> (r: ProjectConfig)
    ensures
        r.mode == cfg.mode,
        views(r.paths@) == views(cfg.paths@),
        r.current_chapter == 0,
{
    let mut paths: Vec<String> = Vec::new();
    let mut i: usize = 0;
    while i < cfg.paths.len()
        invariant
            i <= cfg.paths.len(),
            paths.len() == i,
            views(paths@) == views(cfg.paths@.take(i as int)),
        decreases cfg.paths.len() - i,
    {
        let c = cfg.paths[i].clone();
        assert(c@ == cfg.paths@[i as int]@);
        let ghost before = paths@;
        assert(before.len() == i);
        paths.push(c);
        assert forall|j: int| 0 <= j <= i implies #[trigger] views(paths@)[j] == views(
            cfg.paths@.take(i + 1),
        )[j] by {
            if j < i {
                assert(views(before)[j] == views(cfg.paths@.take(i as int))[j]);
                assert(paths@[j] == before[j]);
            }
        }
        assert(views(paths@) =~= views(cfg.paths@.take(i + 1)));
        i = i + 1;
    }
    assert(cfg.paths@.take(cfg.paths.len() as int) =~= cfg.paths@);
    ProjectConfig { mode: cfg.mode, paths, current_chapter: 0 }
}

} // verus!
