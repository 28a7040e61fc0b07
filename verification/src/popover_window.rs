//! The popover's window: whether it is shown, how high it is, and which window had
//! the focus before it.

use crate::dispatch::Page;
use crate::placement;
use vstd::prelude::*;

verus! {

/// The popover's window.
#[derive(Debug, Clone, Copy, PartialEq, Eq, Structural)]
pub struct PopoverWindow {
    pub visible: bool,
    /// The height that the page asked for, in logical pixels.
    pub content_h: u32,
    /// The window that had the focus before; zero for none.
    pub prev_foreground: u64,
}

impl PopoverWindow {
    /// The window at the start: hidden.
    pub fn new() -> (r: PopoverWindow)
        ensures
            r == (PopoverWindow {
                visible: false,
                content_h: placement::POPOVER_H,
                prev_foreground: 0,
            }),
    {
        PopoverWindow { visible: false, content_h: placement::POPOVER_H, prev_foreground: 0 }
    }

    /// The page said how high it is. Whether the window has to be placed anew.
    pub fn set_content_height(&mut self, h: u32) -> (r: bool)
        ensures
            *final(self) == (PopoverWindow {
                content_h: if h < placement::POPOVER_MIN_H {
                    placement::POPOVER_MIN_H
                } else {
                    h
                },
                ..*old(self)
            }),
            r == (final(self).content_h != old(self).content_h),
    {
        let h: u32 = if h < placement::POPOVER_MIN_H {
            placement::POPOVER_MIN_H
        } else {
            h
        };
        let changed = h != self.content_h;
        self.content_h = h;
        changed
    }

    /// The window is shown.
    pub fn is_visible(&self) -> (r: bool)
        ensures
            r == self.visible,
    {
        self.visible
    }

    /// The window that had the focus when this one is shown: the one that has it,
    /// unless that is none or this one.
    pub open spec fn focus_before(self, foreground: u64, own: u64) -> u64 {
        if foreground != 0 && foreground != own {
            foreground
        } else {
            self.prev_foreground
        }
    }

    fn appear(&mut self, foreground: u64, own: u64)
        ensures
            *final(self) == (PopoverWindow {
                visible: true,
                prev_foreground: old(self).focus_before(foreground, own),
                ..*old(self)
            }),
    {
        if foreground != 0 && foreground != own {
            self.prev_foreground = foreground;
        }
        self.visible = true;
    }

    /// Shows the window; the page to load, where it opens on the form for a new
    /// workstream.
    pub fn show(&mut self, add_mode: bool, foreground: u64, own: u64) -> (r: Option<Page>)
        ensures
            r == if add_mode {
                Some(Page::Add)
            } else {
                None
            },
            *final(self) == (PopoverWindow {
                visible: true,
                prev_foreground: old(self).focus_before(foreground, own),
                ..*old(self)
            }),
    {
        self.appear(foreground, own);
        if add_mode {
            Some(Page::Add)
        } else {
            None
        }
    }

    /// Shows the window on the filter of the workstreams; the page to load.
    pub fn show_find(&mut self, foreground: u64, own: u64) -> (r: Page)
        ensures
            r == Page::Find,
            *final(self) == (PopoverWindow {
                visible: true,
                prev_foreground: old(self).focus_before(foreground, own),
                ..*old(self)
            }),
    {
        self.appear(foreground, own);
        Page::Find
    }

    /// Hides the window; the window that gets the focus back, if there is one.
    pub fn dismiss(&mut self) -> (r: Option<u64>)
        ensures
            !old(self).visible ==> r is None && *final(self) == *old(self),
            old(self).visible ==> *final(self) == (PopoverWindow {
                visible: false,
                prev_foreground: 0,
                ..*old(self)
            }),
            old(self).visible ==> r == if old(self).prev_foreground != 0 {
                Some(old(self).prev_foreground)
            } else {
                None
            },
    {
        if !self.visible {
            return None;
        }
        self.visible = false;
        let prev: u64 = self.prev_foreground;
        self.prev_foreground = 0;
        if prev != 0 {
            Some(prev)
        } else {
            None
        }
    }

    /// Hides the window where it is shown, and shows it where it is not.
    pub fn toggle(&mut self, foreground: u64, own: u64) -> (r: Option<u64>)
        ensures
            *final(self) == if old(self).visible {
                PopoverWindow { visible: false, prev_foreground: 0, ..*old(self) }
            } else {
                PopoverWindow {
                    visible: true,
                    prev_foreground: old(self).focus_before(foreground, own),
                    ..*old(self)
                }
            },
            r == if old(self).visible && old(self).prev_foreground != 0 {
                Some(old(self).prev_foreground)
            } else {
                None
            },
    {
        if self.visible {
            self.dismiss()
        } else {
            self.appear(foreground, own);
            None
        }
    }
}

/// The focus goes back to the window that had it when the popover came, other than the
/// popover itself; where none had it, to the one remembered from before.
pub proof fn focus_goes_back_where_it_was(p: PopoverWindow, foreground: u64, own: u64)
    ensures
        foreground != 0 && foreground != own ==> p.focus_before(foreground, own) == foreground,
        foreground == 0 || foreground == own ==> p.focus_before(foreground, own)
            == p.prev_foreground,
{
}

} // verus!
