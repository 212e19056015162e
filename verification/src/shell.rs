use vstd::prelude::*;

verus! {

/// Window dressing the desktop shell applies to its own windows (a
/// transparent title bar, hiding the stock window buttons).
///
/// This is presentation glue with no algorithmic content: the engine
/// never calls it and proves nothing through it.  The UI shell implements
/// it over the host windowing toolkit, outside the verified core.
pub trait WindowExt {
    fn set_transparent_titlebar(&self, title_transparent: bool, remove_toolbar: bool);
}

} // verus!
