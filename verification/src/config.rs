//! Settings that can be made once and are then kept.

use once_cell::sync::OnceCell;
use vstd::prelude::*;

use crate::time::Duration;

verus! {

/// `once_cell::sync::OnceCell`: a cell that is empty until a value is put into it, and keeps
/// that value from then on.
#[verifier::external_type_specification]
#[verifier::external_body]
#[verifier::reject_recursive_types(T)]
pub struct ExOnceCell<T>(once_cell::sync::OnceCell<T>);

/// `OnceCell::new` makes an empty cell: asking it for its value gives nothing.
pub assume_specification<T>[ OnceCell::<T>::new ]() -> (cell: OnceCell<T>)
    ensures
        holds(cell, None),
;

/// `OnceCell::get` gives the value that the cell holds, or nothing while it is empty. What a
/// cell holds is told by the other items here, in terms of what this call returns.
pub assume_specification<T>[ OnceCell::<T>::get ](cell: &OnceCell<T>) -> (value: Option<&T>)
;

/// Whether `value` is all that asking `cell` for its value can give.
pub open spec fn holds<T>(cell: OnceCell<T>, value: Option<T>) -> bool {
    forall|answer: Option<&T>| #[trigger]
        call_ensures(OnceCell::<T>::get, (&cell,), answer) ==> match value {
            Some(v) => answer == Some(&v),
            None => answer is None,
        }
}

/// `OnceCell::get_or_init` puts `value` into the cell if it is empty, and leaves a cell that
/// holds a value as it is.
#[verifier::external_body]
fn init_cell<T>(cell: &mut OnceCell<T>, value: T)
    ensures
        holds(*old(cell), None) ==> holds(*final(cell), Some(value)),
        forall|v: T| holds(*old(cell), Some(v)) ==> #[trigger] holds(*final(cell), Some(v)),
{
    cell.get_or_init(|| value);
}

/// What a reference is to, if there is one.
pub open spec fn target<T>(reference: Option<&T>) -> Option<T> {
    match reference {
        Some(t) => Some(*t),
        None => None,
    }
}

/// What became of an attempt to make a setting.
#[derive(Debug, Clone, Copy, PartialEq, Eq, Structural)]
pub enum SetConfigOutcome {
    /// The setting was made.
    NowSet,
    /// The setting had been made before, and stays as it was.
    AlreadyInit,
}

/// A setting that can be made once.
#[verifier::reject_recursive_types(T)]
pub struct Setting<T> {
    cell: OnceCell<T>,
}

impl<T> View for Setting<T> {
    type V = Option<T>;

    closed spec fn view(&self) -> Option<T> {
        choose|value: Option<T>| holds(self.cell, value)
    }
}

impl<T> Setting<T> {
    /// The cell holds what the view says.
    pub closed spec fn wf(&self) -> bool {
        holds(self.cell, self@)
    }

    /// A setting that has not been made.
    pub fn new() -> (setting: Self)
        ensures
            setting.wf(),
            setting@ is None,
    {
        let setting = Setting { cell: OnceCell::new() };
        // That the cell gives an answer shows that it holds no second value.
        let _answer = setting.cell.get();
        setting
    }

    /// The value of the setting, if it has been made.
    pub fn get(&self) -> (value: Option<&T>)
        requires
            self.wf(),
        ensures
            value is Some <==> self@ is Some,
            value matches Some(v) ==> self@ == Some(*v),
    {
        self.cell.get()
    }

    /// Makes the setting, unless it has been made before.
    pub fn set(&mut self, value: T) -> (outcome: SetConfigOutcome)
        requires
            old(self).wf(),
        ensures
            final(self).wf(),
            (outcome == SetConfigOutcome::NowSet) == (old(self)@ is None),
            final(self)@ == match old(self)@ {
                Some(v) => Some(v),
                None => Some(value),
            },
    {
        if self.cell.get().is_none() {
            init_cell(&mut self.cell, value);
            let _answer = self.cell.get();
            SetConfigOutcome::NowSet
        } else {
            SetConfigOutcome::AlreadyInit
        }
    }
}

/// All settings. `G` and `C` are the handlers of flame graphs and of flame charts.
#[verifier::reject_recursive_types(G)]
#[verifier::reject_recursive_types(C)]
pub struct Settings<G, C> {
    /// Whether flame graphs are collected.
    pub flame_graph_enabled: bool,
    /// Whether flame charts are collected.
    pub flame_chart_enabled: bool,
    /// What to do with a complete flame graph.
    pub flame_graph_handler: Setting<G>,
    /// What to do with a complete flame chart.
    pub flame_chart_handler: Setting<C>,
    /// The shortest span that a flame chart keeps.
    pub duration_minimum: Setting<Duration>,
    /// The names that the outermost span of a trace may have.
    pub allowed_entry_points: Setting<Vec<&'static str>>,
}

impl<G, C> Settings<G, C> {
    /// Each setting holds what its view says.
    pub open spec fn wf(&self) -> bool {
        &&& self.flame_graph_handler.wf()
        &&& self.flame_chart_handler.wf()
        &&& self.duration_minimum.wf()
        &&& self.allowed_entry_points.wf()
    }

    /// The names that the outermost span of a trace may have, if they are limited.
    pub open spec fn entry_points(&self) -> Option<Seq<&'static str>> {
        match self.allowed_entry_points@ {
            Some(names) => Some(names@),
            None => None,
        }
    }

    /// Nothing is collected, and no setting has been made.
    pub fn new() -> (settings: Self)
        ensures
            settings.wf(),
            !settings.flame_graph_enabled,
            !settings.flame_chart_enabled,
            settings.flame_graph_handler@ is None,
            settings.flame_chart_handler@ is None,
            settings.duration_minimum@ is None,
            settings.allowed_entry_points@ is None,
    {
        Settings {
            flame_graph_enabled: false,
            flame_chart_enabled: false,
            flame_graph_handler: Setting::new(),
            flame_chart_handler: Setting::new(),
            duration_minimum: Setting::new(),
            allowed_entry_points: Setting::new(),
        }
    }
}

/// Enable (or disable by passing `false`) the collection of flame graphs. You will probably also
/// want to set a handler.
pub fn enable_flame_graph_collection<G, C>(settings: &mut Settings<G, C>, enabled: bool)
    ensures
        *final(settings) == (Settings { flame_graph_enabled: enabled, ..*old(settings) }),
{
    settings.flame_graph_enabled = enabled;
}

/// Enable (or disable by passing `false`) the collection of flame charts. You will probably also
/// want to set a handler.
pub fn enable_flame_chart_collection<G, C>(settings: &mut Settings<G, C>, enabled: bool)
    ensures
        *final(settings) == (Settings { flame_chart_enabled: enabled, ..*old(settings) }),
{
    settings.flame_chart_enabled = enabled;
}

/// If set, any trace whose outermost span does not have one of the given names will be ignored.
pub fn limit_entry_points<G, C>(settings: &mut Settings<G, C>, entry_points: Vec<&'static str>) -> (outcome:
    SetConfigOutcome)
    requires
        old(settings).wf(),
    ensures
        final(settings).wf(),
        (outcome == SetConfigOutcome::NowSet) == (old(settings).allowed_entry_points@ is None),
        final(settings).allowed_entry_points@ == match old(settings).allowed_entry_points@ {
            Some(names) => Some(names),
            None => Some(entry_points),
        },
        *final(settings) == (Settings {
            allowed_entry_points: final(settings).allowed_entry_points,
            ..*old(settings)
        }),
{
    settings.allowed_entry_points.set(entry_points)
}

/// What a reference is to is what it refers to, and the names that a trace may begin with are
/// those that were given.
pub proof fn law_settings_are_read_as_they_were_made<T, G, C>(
    value: T,
    settings: Settings<G, C>,
)
    ensures
        target(Some(&value)) == Some(value),
        target(None::<&T>) is None,
        match settings.allowed_entry_points@ {
            Some(names) => settings.entry_points() == Some(names@),
            None => settings.entry_points() is None,
        },
{
}

} // verus!
