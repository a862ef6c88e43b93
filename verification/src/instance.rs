//! Instances of a netlist.

use vstd::prelude::*;
use vstd::string::*;

use crate::duplicate::Duplicate;
use crate::names::Name;

verus! {

/// Counts of a regular array of instances.
#[derive(Clone, Copy, Debug, PartialEq, Eq, Structural)]
pub struct NetlistArray {
    pub na: i64,
    pub nb: i64,
}

impl NetlistArray {
    /// More than one element in some direction.
    pub open spec fn spans(self) -> bool {
        self.na > 1 || self.nb > 1
    }
}

/// Factory settings of an instance: a JSON value, as text unless it is null.
#[derive(Debug, PartialEq, Eq)]
pub enum Settings {
    Null,
    Json(String),
}

/// View of [`Settings`].
pub enum SettingsView {
    Null,
    Json(Seq<char>),
}

impl View for Settings {
    type V = SettingsView;

    open spec fn view(&self) -> SettingsView {
        match self {
            Settings::Null => SettingsView::Null,
            Settings::Json(text) => SettingsView::Json(text@),
        }
    }
}

impl SettingsView {
    /// The empty JSON object.
    pub open spec fn empty_object() -> SettingsView {
        SettingsView::Json("{}"@)
    }

    /// The settings with null replaced by the empty object.
    pub open spec fn or_empty_object(self) -> SettingsView {
        match self {
            SettingsView::Null => SettingsView::empty_object(),
            SettingsView::Json(_) => self,
        }
    }
}

impl Settings {
    /// The empty JSON object.
    pub fn empty_object() -> (res: Self)
        ensures
            res@ == SettingsView::empty_object(),
    {
        Settings::Json("{}".to_owned())
    }

    /// The settings are null.
    pub fn is_null(&self) -> (res: bool)
        ensures
            res == (self@ == SettingsView::Null),
    {
        match self {
            Settings::Null => true,
            Settings::Json(_) => false,
        }
    }
}

impl Duplicate for Settings {
    fn duplicate(&self) -> (res: Self) {
        match self {
            Settings::Null => Settings::Null,
            Settings::Json(text) => Settings::Json(text.clone()),
        }
    }
}

/// A placed component: which library and factory it comes from, with which
/// settings, and under which name.
#[derive(Debug, PartialEq, Eq)]
pub struct NetlistInstance {
    pub kcl: String,
    pub component: String,
    pub settings: Settings,
    pub array: Option<NetlistArray>,
    pub name: String,
}

/// View of [`NetlistInstance`].
pub struct InstanceView {
    pub kcl: Seq<char>,
    pub component: Seq<char>,
    pub settings: SettingsView,
    pub array: Option<NetlistArray>,
    pub name: Name,
}

impl View for NetlistInstance {
    type V = InstanceView;

    open spec fn view(&self) -> InstanceView {
        InstanceView {
            kcl: self.kcl@,
            component: self.component@,
            settings: self.settings@,
            array: self.array,
            name: self.name@,
        }
    }
}

impl InstanceView {
    /// An array of more than one element.
    pub open spec fn is_array(self) -> bool {
        match self.array {
            Some(a) => a.spans(),
            None => false,
        }
    }

    /// The instance under another name.
    pub open spec fn renamed(self, name: Name) -> InstanceView {
        InstanceView { name, ..self }
    }
}

impl NetlistInstance {
    /// The instance is an array of more than one element.
    pub fn is_array(&self) -> (res: bool)
        ensures
            res == self@.is_array(),
    {
        match &self.array {
            Some(a) => a.na > 1 || a.nb > 1,
            None => false,
        }
    }
}

impl Duplicate for NetlistInstance {
    fn duplicate(&self) -> (res: Self) {
        NetlistInstance {
            kcl: self.kcl.clone(),
            component: self.component.clone(),
            settings: self.settings.duplicate(),
            array: self.array,
            name: self.name.clone(),
        }
    }
}

} // verus!
