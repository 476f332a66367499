//! What the editor window shows and decides, apart from the widgets themselves: labels,
//! messages and the choices made before an action that may lose unsaved changes.

use vstd::prelude::*;
use vstd::string::StringExecFns;
use crate::channel::{ChannelMemory, la_to_pa_spec, pa_to_la_spec};
use crate::fire::FireResult;
use crate::hex::{dec_text, hex4_text, hex_char, push_decimal, string_push};

verus! {

/// The label and the style class of the correction button for a page's outcome.
pub open spec fn corr_style_spec(res: FireResult) -> (Seq<char>, Seq<char>) {
    match res {
        FireResult::Valid => ("Ok"@, "code_ok"@),
        FireResult::Correctable => ("Correctable"@, "code_corr"@),
        FireResult::Uncorrectable => ("Uncorrectable"@, "code_uncorr"@),
        _ => ("???"@, ""@),
    }
}

/// The label and the style class of the correction button for a page's outcome.
pub fn corr_button_style(res: FireResult) -> (r: (&'static str, &'static str))
    ensures
        (r.0@, r.1@) == corr_style_spec(res),
{
    match res {
        FireResult::Valid => ("Ok", "code_ok"),
        FireResult::Correctable => ("Correctable", "code_corr"),
        FireResult::Uncorrectable => ("Uncorrectable", "code_uncorr"),
        _ => ("???", ""),
    }
}

/// The message that reports the counts of a check of the pages.
pub open spec fn counters_spec(cnt: (usize, usize, usize)) -> Seq<char> {
    "Ok: "@ + dec_text(cnt.0 as nat) + "\nCorrected: "@ + dec_text(cnt.1 as nat) + "\nUncorrectable: "@
        + dec_text(cnt.2 as nat)
}

/// The message that reports the counts of valid, corrected and uncorrectable pages.
pub fn counters_text(cnt: (usize, usize, usize)) -> (s: String)
    ensures
        s@ == counters_spec(cnt),
{
    let mut s = String::new();
    s.append("Ok: ");
    push_decimal(&mut s, cnt.0);
    s.append("\nCorrected: ");
    push_decimal(&mut s, cnt.1);
    s.append("\nUncorrectable: ");
    push_decimal(&mut s, cnt.2);
    s
}

/// `t` right-aligned on at least three characters.
pub open spec fn pad3(t: Seq<char>) -> Seq<char> {
    if t.len() >= 3 {
        t
    } else {
        Seq::new((3 - t.len()) as nat, |i: int| ' ') + t
    }
}

proof fn lemma_dec_len(n: nat)
    ensures
        dec_text(n).len() >= 1,
        n < 10 ==> dec_text(n).len() == 1,
        10 <= n < 100 ==> dec_text(n).len() == 2,
        n >= 100 ==> dec_text(n).len() >= 3,
    decreases n,
{
    if n >= 10 {
        lemma_dec_len(n / 10);
    }
}

/// The count of good loops of a channel bootloop, right-aligned on three characters, followed
/// by ` 1s`.
pub fn ones_text(n: u32) -> (s: String)
    ensures
        s@ == pad3(dec_text(n as nat)) + " 1s"@,
{
    proof {
        lemma_dec_len(n as nat);
    }
    let mut s = String::new();
    if n < 10 {
        s.append("  ");
    } else if n < 100 {
        s.append(" ");
    }
    push_decimal(&mut s, n as usize);
    s.append(" 1s");
    proof {
        if n < 10 {
            assert(Seq::new(2, |i: int| ' ') =~= "  "@) by {
                reveal_strlit("  ");
            }
        } else if n < 100 {
            assert(Seq::new(1, |i: int| ' ') =~= " "@) by {
                reveal_strlit(" ");
            }
        }
    }
    s
}

/// A value in lower-case hexadecimal on at least three digits.
pub open spec fn hex3_text(v: u16) -> Seq<char> {
    if v < 4096 {
        seq![
            hex_char(((v >> 8u16) & 15u16) as u8),
            hex_char(((v >> 4u16) & 15u16) as u8),
            hex_char((v & 15u16) as u8),
        ]
    } else {
        hex4_text(v)
    }
}

fn push_hex_digit(s: &mut String, n: u16)
    requires
        n < 16,
    ensures
        final(s)@ == old(s)@.push(hex_char(n as u8)),
{
    let d = n as u8;
    let c = if d < 10 {
        (48 + d) as char
    } else {
        (87 + d) as char
    };
    string_push(s, c);
}

fn push_hex3(s: &mut String, v: u16)
    ensures
        final(s)@ == old(s)@ + hex3_text(v),
{
    assert((v >> 12u16) & 15u16 < 16 && (v >> 8u16) & 15u16 < 16 && (v >> 4u16) & 15u16 < 16
        && v & 15u16 < 16) by (bit_vector);
    if v >= 4096 {
        push_hex_digit(s, (v >> 12) & 15);
    }
    push_hex_digit(s, (v >> 8) & 15);
    push_hex_digit(s, (v >> 4) & 15);
    push_hex_digit(s, v & 15);
    assert(final(s)@ =~= old(s)@ + hex3_text(v));
}

/// The address label of a logical page: its logical address and the physical address of its
/// page.
pub open spec fn log_address_spec(la: u16) -> Seq<char> {
    "LA "@ + hex3_text(la) + " PA "@ + hex3_text(la_to_pa_spec(la))
}

/// The address label of logical page `la`.
pub fn log_address_text(la: u16) -> (s: String)
    ensures
        s@ == log_address_spec(la),
{
    let pa = ChannelMemory::la_to_pa(la);
    let mut s = String::new();
    s.append("LA ");
    push_hex3(&mut s, la);
    s.append(" PA ");
    push_hex3(&mut s, pa);
    s
}

/// The address label of a physical page: the logical page it belongs to, the offset of the
/// address in that page (0 or 2) and the physical address.
pub open spec fn phy_address_spec(pa: u16) -> Seq<char> {
    let (la, u) = pa_to_la_spec(pa);
    "LA "@ + hex3_text(la) + "+"@ + (if u == 0 { "0"@ } else { "2"@ }) + " PA "@ + hex3_text(pa)
}

/// The address label of physical page `pa`.
pub fn phy_address_text(pa: u16) -> (s: String)
    ensures
        s@ == phy_address_spec(pa),
{
    let (la, u) = ChannelMemory::pa_to_la(pa);
    let mut s = String::new();
    s.append("LA ");
    push_hex3(&mut s, la);
    s.append("+");
    if u == 0 {
        s.append("0");
    } else {
        s.append("2");
    }
    s.append(" PA ");
    push_hex3(&mut s, pa);
    s
}

/// The window title: a star when the device changed, then `Unnamed` when it has no file, or
/// the file's name in bold; none when the file's name is not text.
pub open spec fn title_spec(dirty: bool, has_path: bool, file_name: Option<&str>) -> Option<Seq<char>> {
    let mark = if dirty { "*"@ } else { " "@ };
    if !has_path {
        Some(mark + "Unnamed"@)
    } else {
        match file_name {
            Some(n) => Some("<b>"@ + mark + n@ + "</b>"@),
            None => None,
        }
    }
}

/// The window title for a device, as [`title_spec`] says.
pub fn title_text(dirty: bool, has_path: bool, file_name: Option<&str>) -> (r: Option<String>)
    ensures
        match (r, title_spec(dirty, has_path, file_name)) {
            (Some(s), Some(t)) => s@ == t,
            (None, None) => true,
            _ => false,
        },
{
    let mark: &str = if dirty {
        "*"
    } else {
        " "
    };
    if !has_path {
        let mut s = mark.to_owned();
        s.append("Unnamed");
        Some(s)
    } else {
        match file_name {
            Some(n) => {
                let mut s = String::new();
                s.append("<b>");
                s.append(mark);
                s.append(n);
                s.append("</b>");
                Some(s)
            },
            None => None,
        }
    }
}

/// What to do before an action that would lose unsaved changes.
#[derive(Clone, Copy, Debug, PartialEq, Eq, Structural)]
pub enum SaveCheck {
    /// Nothing to save: go on.
    Proceed,
    /// Save first, then go on.
    Save,
    /// Ask whether to save first.
    Ask,
}

/// Before an action that would lose unsaved changes: go on when nothing changed, save when
/// saving is forced, ask otherwise.
pub fn saving_check(dirty: bool, force: bool) -> (r: SaveCheck)
    ensures
        r == if !dirty {
            SaveCheck::Proceed
        } else if force {
            SaveCheck::Save
        } else {
            SaveCheck::Ask
        },
{
    if dirty {
        if force {
            SaveCheck::Save
        } else {
            SaveCheck::Ask
        }
    } else {
        SaveCheck::Proceed
    }
}

/// What to do before an action on the raw image.
#[derive(Clone, Copy, Debug, PartialEq, Eq, Structural)]
pub enum ImageCheck {
    /// The bootloop is invalid: refuse.
    Refuse,
    /// Check first whether unsaved changes must be saved.
    CheckSaving,
    /// Go on.
    Proceed,
}

/// Before an action on the raw image: refuse with an invalid bootloop; with one that is
/// valid, check unsaved changes first when the action replaces the data.
pub fn image_check(bl_valid: bool, saving: bool) -> (r: ImageCheck)
    ensures
        r == if !bl_valid {
            ImageCheck::Refuse
        } else if saving {
            ImageCheck::CheckSaving
        } else {
            ImageCheck::Proceed
        },
{
    if bl_valid {
        if saving {
            ImageCheck::CheckSaving
        } else {
            ImageCheck::Proceed
        }
    } else {
        ImageCheck::Refuse
    }
}

/// The answer to a yes/no(/cancel) question from the chosen button: yes for the first, no for
/// the second, none (cancel) for the third.
pub fn yes_no_answer(choice: i32) -> (r: Option<bool>)
    ensures
        r == if choice == 2 {
            None
        } else {
            Some(choice == 0)
        },
{
    if choice != 2 {
        Some(choice == 0)
    } else {
        None
    }
}

/// The window may close at once: it is already leaving, or nothing is unsaved.
pub fn close_allowed(leaving: bool, dirty: bool) -> (r: bool)
    ensures
        r == (leaving || !dirty),
{
    leaving || !dirty
}

} // verus!
