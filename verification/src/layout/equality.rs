//! When two layouts count as the same: a widget's layout has changed only
//! if its box has.
use crate::layout::system::layout_equality;
use crate::layout::system::layouts_equal;
use crate::layout::system::WidgetLayout;
use crate::layout::system::WidgetPreviousLayout;
use vstd::prelude::*;
use vstd::std_specs::cmp::PartialEqSpecImpl;

verus! {

impl PartialEq for WidgetLayout {
    fn eq(&self, other: &Self) -> (equal: bool) {
        layout_equality(&self.0, &other.0)
    }
}

impl PartialEqSpecImpl for WidgetLayout {
    open spec fn obeys_eq_spec() -> bool {
        true
    }

    open spec fn eq_spec(&self, other: &Self) -> bool {
        layouts_equal(self.0, other.0)
    }
}

impl PartialEq for WidgetPreviousLayout {
    fn eq(&self, other: &Self) -> (equal: bool) {
        layout_equality(&self.0, &other.0)
    }
}

impl PartialEqSpecImpl for WidgetPreviousLayout {
    open spec fn obeys_eq_spec() -> bool {
        true
    }

    open spec fn eq_spec(&self, other: &Self) -> bool {
        layouts_equal(self.0, other.0)
    }
}

impl PartialEq<WidgetLayout> for WidgetPreviousLayout {
    fn eq(&self, other: &WidgetLayout) -> (equal: bool) {
        layout_equality(&self.0, &other.0)
    }
}

impl PartialEqSpecImpl<WidgetLayout> for WidgetPreviousLayout {
    open spec fn obeys_eq_spec() -> bool {
        true
    }

    open spec fn eq_spec(&self, other: &WidgetLayout) -> bool {
        layouts_equal(self.0, other.0)
    }
}

} // verus!
