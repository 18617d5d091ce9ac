//! What the album's own window does with each Windows message, the keys it
//! passes on, and how a rendered frame is laid out for the screen.

use vstd::prelude::*;

verus! {

/// The keys the window passes on by name.
#[derive(Clone, Copy, Debug, PartialEq, Eq, Structural)]
pub enum Key {
    LeftArrow,
    RightArrow,
    UpArrow,
    DownArrow,
    Home,
    End,
    PageUp,
    PageDown,
    Return,
    Escape,
    Backspace,
    Delete,
    Insert,
    Tab,
    F(u8),
}

/// The key of a virtual-key code, where it is one of the named keys.
pub open spec fn key_of(vk: u16) -> Option<Key> {
    if vk == 0x25 {
        Some(Key::LeftArrow)
    } else if vk == 0x27 {
        Some(Key::RightArrow)
    } else if vk == 0x26 {
        Some(Key::UpArrow)
    } else if vk == 0x28 {
        Some(Key::DownArrow)
    } else if vk == 0x24 {
        Some(Key::Home)
    } else if vk == 0x23 {
        Some(Key::End)
    } else if vk == 0x21 {
        Some(Key::PageUp)
    } else if vk == 0x22 {
        Some(Key::PageDown)
    } else if vk == 0x0D {
        Some(Key::Return)
    } else if vk == 0x1B {
        Some(Key::Escape)
    } else if vk == 0x08 {
        Some(Key::Backspace)
    } else if vk == 0x2E {
        Some(Key::Delete)
    } else if vk == 0x2D {
        Some(Key::Insert)
    } else if vk == 0x09 {
        Some(Key::Tab)
    } else if 0x70 <= vk <= 0x7B {
        Some(Key::F((vk - 0x70 + 1) as u8))
    } else {
        None
    }
}

/// The named key of a key message's `wParam` (its low 16 bits).
pub fn vk_to_key(vk: usize) -> (r: Option<Key>)
    ensures
        r == key_of(vk as u16),
{
    #[verifier::truncate]
    let v: u16 = vk as u16;
    if v == 0x25 {
        Some(Key::LeftArrow)
    } else if v == 0x27 {
        Some(Key::RightArrow)
    } else if v == 0x26 {
        Some(Key::UpArrow)
    } else if v == 0x28 {
        Some(Key::DownArrow)
    } else if v == 0x24 {
        Some(Key::Home)
    } else if v == 0x23 {
        Some(Key::End)
    } else if v == 0x21 {
        Some(Key::PageUp)
    } else if v == 0x22 {
        Some(Key::PageDown)
    } else if v == 0x0D {
        Some(Key::Return)
    } else if v == 0x1B {
        Some(Key::Escape)
    } else if v == 0x08 {
        Some(Key::Backspace)
    } else if v == 0x2E {
        Some(Key::Delete)
    } else if v == 0x2D {
        Some(Key::Insert)
    } else if v == 0x09 {
        Some(Key::Tab)
    } else if v >= 0x70 && v <= 0x7B {
        Some(Key::F((v - 0x70 + 1) as u8))
    } else {
        None
    }
}

/// The low and high words of `lParam`.
pub open spec fn lo_word(lp: isize) -> u32 {
    (lp & 0xFFFF) as u32
}

pub open spec fn hi_word(lp: isize) -> u32 {
    ((lp >> 16usize) & 0xFFFF) as u32
}

/// A word of `lParam` read as a signed 16-bit coordinate.
pub open spec fn lo_coord(lp: isize) -> i32 {
    ((lp & 0xFFFF) as i16) as i32
}

pub open spec fn hi_coord(lp: isize) -> i32 {
    (((lp >> 16usize) & 0xFFFF) as i16) as i32
}

/// The wheel turn in the high word of `wParam`, signed.
pub open spec fn wheel_delta(wp: usize) -> i32 {
    (((wp >> 16usize) & 0xFFFF) as i16) as i32
}

/// What the window does with a message.
pub enum WinAction {
    /// Report the background as erased (answer 1).
    SkipErase,
    /// Render the frame inside a paint cycle.
    Paint,
    /// Take the new client size.
    Resize(u32, u32),
    /// A pointer move to this client position.
    PointerMoved(i32, i32),
    /// A button press (left or right) at this position; the left button
    /// captures the mouse.
    Pressed { left: bool, x: i32, y: i32 },
    /// A button release at this position; the left button releases capture.
    Released { left: bool, x: i32, y: i32 },
    /// A wheel turn by this many units at this screen position.
    Wheel { x: i32, y: i32, delta: i32 },
    /// A named key pressed or released (then the default handling).
    KeyDown(Key),
    KeyUp(Key),
    /// A typed character, pressed and released.
    Typed(char),
    /// The window gained or lost the focus.
    Focus(bool),
    /// Close the application.
    Quit,
    /// Answer 0 and do nothing.
    Ignore,
    /// Leave the message to the default window procedure.
    Default,
}

pub open spec fn wm_size() -> u32 { 0x0005 }

/// Whether a 32-bit number is a Unicode scalar value.
pub open spec fn is_scalar_value(v: u32) -> bool {
    v <= 0x10FFFF && !(0xD800 <= v <= 0xDFFF)
}

/// What `char::from_u32` gives for `v`: the character numbered `v`, where
/// `v` is a scalar value.
pub open spec fn char_from_u32(v: u32) -> Option<char> {
    if is_scalar_value(v) {
        Some(v as char)
    } else {
        None
    }
}

/// `char::from_u32`: the character with this number, where it is a Unicode
/// scalar value.
#[verifier::external_body]
fn char_of(v: u32) -> (r: Option<char>)
    ensures
        r is Some <==> is_scalar_value(v),
        r matches Some(c) ==> c as u32 == v,
{
    char::from_u32(v)
}

/// The action for message `msg` with its parameters (see [`WinAction`]).
pub open spec fn action_for(msg: u32, wp: usize, lp: isize, ch: Option<char>) -> WinAction {
    let x = lo_coord(lp);
    let y = hi_coord(lp);
    if msg == 0x0014 {
        WinAction::SkipErase
    } else if msg == 0x000F {
        WinAction::Paint
    } else if msg == 0x0005 && wp != 1 {
        if lo_word(lp) > 0 && hi_word(lp) > 0 {
            WinAction::Resize(lo_word(lp), hi_word(lp))
        } else {
            WinAction::Ignore
        }
    } else if msg == 0x0200 {
        WinAction::PointerMoved(x, y)
    } else if msg == 0x0201 || msg == 0x0203 {
        WinAction::Pressed { left: true, x, y }
    } else if msg == 0x0202 {
        WinAction::Released { left: true, x, y }
    } else if msg == 0x0204 || msg == 0x0206 {
        WinAction::Pressed { left: false, x, y }
    } else if msg == 0x0205 {
        WinAction::Released { left: false, x, y }
    } else if msg == 0x020A {
        WinAction::Wheel { x, y, delta: wheel_delta(wp) }
    } else if msg == 0x0100 || msg == 0x0104 {
        match key_of(wp as u16) {
            Some(k) => WinAction::KeyDown(k),
            None => WinAction::Default,
        }
    } else if msg == 0x0101 || msg == 0x0105 {
        match key_of(wp as u16) {
            Some(k) => WinAction::KeyUp(k),
            None => WinAction::Default,
        }
    } else if msg == 0x0102 {
        if wp >= 32 && wp != 127 && ch is Some {
            WinAction::Typed(ch->0)
        } else {
            WinAction::Ignore
        }
    } else if msg == 0x0007 {
        WinAction::Focus(true)
    } else if msg == 0x0008 {
        WinAction::Focus(false)
    } else if msg == 0x0010 || msg == 0x0002 {
        WinAction::Quit
    } else {
        WinAction::Default
    }
}

/// The window's decision for one message. For `WM_CHAR` the character is
/// the one numbered by the low 32 bits of `wParam`, where that is a scalar
/// value.
pub fn message_action(msg: u32, wp: usize, lp: isize) -> (r: WinAction)
    ensures
        r == action_for(msg, wp, lp, char_from_u32(wp as u32)),
{
    #[verifier::truncate]
    let lo: u32 = (lp & 0xFFFF) as u32;
    #[verifier::truncate]
    let hi: u32 = ((lp >> 16usize) & 0xFFFF) as u32;
    #[verifier::truncate]
    let x: i32 = ((lp & 0xFFFF) as i16) as i32;
    #[verifier::truncate]
    let y: i32 = (((lp >> 16usize) & 0xFFFF) as i16) as i32;
    if msg == 0x0014 {
        WinAction::SkipErase
    } else if msg == 0x000F {
        WinAction::Paint
    } else if msg == 0x0005 && wp != 1 {
        if lo > 0 && hi > 0 {
            WinAction::Resize(lo, hi)
        } else {
            WinAction::Ignore
        }
    } else if msg == 0x0200 {
        WinAction::PointerMoved(x, y)
    } else if msg == 0x0201 || msg == 0x0203 {
        WinAction::Pressed { left: true, x, y }
    } else if msg == 0x0202 {
        WinAction::Released { left: true, x, y }
    } else if msg == 0x0204 || msg == 0x0206 {
        WinAction::Pressed { left: false, x, y }
    } else if msg == 0x0205 {
        WinAction::Released { left: false, x, y }
    } else if msg == 0x020A {
        #[verifier::truncate]
        let d: i32 = (((wp >> 16usize) & 0xFFFF) as i16) as i32;
        WinAction::Wheel { x, y, delta: d }
    } else if msg == 0x0100 || msg == 0x0104 {
        match vk_to_key(wp) {
            Some(k) => WinAction::KeyDown(k),
            None => WinAction::Default,
        }
    } else if msg == 0x0101 || msg == 0x0105 {
        match vk_to_key(wp) {
            Some(k) => WinAction::KeyUp(k),
            None => WinAction::Default,
        }
    } else if msg == 0x0102 {
        if wp >= 32 && wp != 127 {
            #[verifier::truncate]
            let code: u32 = wp as u32;
            let ch = char_of(code);
            proof {
                if let Some(c) = ch {
                    vstd::utf8::char_u32_cast(c, code);
                }
            }
            assert(ch == char_from_u32(code));
            match ch {
                Some(c) => WinAction::Typed(c),
                None => WinAction::Ignore,
            }
        } else {
            WinAction::Ignore
        }
    } else if msg == 0x0007 {
        WinAction::Focus(true)
    } else if msg == 0x0008 {
        WinAction::Focus(false)
    } else if msg == 0x0010 || msg == 0x0002 {
        WinAction::Quit
    } else {
        WinAction::Default
    }
}

/// The frame's pixels as blue-green-red triples, row after row, as the
/// screen bitmap takes them.
pub open spec fn bgr_of(rgb: Seq<(u8, u8, u8)>) -> Seq<u8>
    decreases rgb.len(),
{
    if rgb.len() == 0 {
        Seq::empty()
    } else {
        let p = rgb.last();
        bgr_of(rgb.drop_last()) + seq![p.2, p.1, p.0]
    }
}

pub fn rgb_to_bgr(rgb: &Vec<(u8, u8, u8)>) -> (r: Vec<u8>)
    ensures
        r@ == bgr_of(rgb@),
{
    let mut out: Vec<u8> = Vec::new();
    let mut i: usize = 0;
    assert(rgb@.take(0) =~= Seq::<(u8, u8, u8)>::empty());
    while i < rgb.len()
        invariant
            i <= rgb@.len(),
            out@ == bgr_of(rgb@.take(i as int)),
        decreases rgb@.len() - i,
    {
        let p = rgb[i];
        out.push(p.2);
        out.push(p.1);
        out.push(p.0);
        i += 1;
        assert(rgb@.take(i as int).drop_last() =~= rgb@.take(i - 1));
        assert(out@ =~= bgr_of(rgb@.take(i as int)));
    }
    assert(rgb@.take(i as int) =~= rgb@);
    out
}

/// The pause between frames in milliseconds: the time to the next timer,
/// at most 16, and 16 where no timer is pending.
pub open spec fn frame_pause(next_ms: Option<u128>) -> u32 {
    match next_ms {
        Some(m) => if (m as u32) < 16 {
            m as u32
        } else {
            16
        },
        None => 16,
    }
}

pub fn frame_sleep_ms(next_ms: Option<u128>) -> (r: u32)
    ensures
        r == frame_pause(next_ms),
{
    match next_ms {
        Some(m) => {
            #[verifier::truncate]
            let t: u32 = m as u32;
            if t < 16 {
                t
            } else {
                16
            }
        },
        None => 16,
    }
}

} // verus!
