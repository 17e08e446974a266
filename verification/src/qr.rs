//! QR codes for the terminal.

use vstd::prelude::*;

verus! {

/// What the `qrcode` crate makes of a text: the QR code of its UTF-8 bytes as lines of
/// half blocks with a quiet zone around it, or the text of the error.
pub uninterp spec fn qr_rendering(text: Seq<char>) -> Result<Seq<char>, Seq<char>>;

/// A rendering, as characters.
pub open spec fn rendering_view(r: Result<String, String>) -> Result<Seq<char>, Seq<char>> {
    match r {
        Ok(s) => Ok(s@),
        Err(e) => Err(e@),
    }
}

/// Renders a text with `qrcode::QrCode::new` and `qrcode::QrCode::render`, two rows of
/// modules to a line of text. The result depends on the text alone; how it looks is left
/// to the crate. A text that is too long for a QR code gives the text of the error.
#[verifier::external_body]
fn render(text: &str) -> (r: Result<String, String>)
    ensures
        rendering_view(r) == qr_rendering(text@),
{
    match qrcode::QrCode::new(text.as_bytes()) {
        Ok(code) => Ok(
            code.render::<qrcode::render::unicode::Dense1x2>().quiet_zone(true).build(),
        ),
        Err(e) => Err(e.to_string()),
    }
}

/// What is shown for a rendering: the code, or why there is none.
pub open spec fn shown_code(rendering: Result<Seq<char>, Seq<char>>) -> Seq<char> {
    match rendering {
        Ok(code) => code,
        Err(e) => "(could not render QR: "@ + e + ")"@,
    }
}

/// What is shown for a rendering.
pub fn code_text(rendering: Result<String, String>) -> (r: String)
    ensures
        r@ == shown_code(rendering_view(rendering)),
{
    match rendering {
        Ok(code) => code,
        Err(e) => "(could not render QR: ".to_owned().concat(e.as_str()).concat(")"),
    }
}

/// A text as a QR code for the terminal: two rows of modules to a line, so that it comes
/// out roughly square.
pub fn qr(text: &str) -> (r: String)
    ensures
        r@ == shown_code(qr_rendering(text@)),
{
    code_text(render(text))
}

/// A code is shown as it was rendered, and an error with its text, whatever they are.
pub proof fn law_codes_are_shown_as_rendered(code: String, error: String)
    ensures
        rendering_view(Ok(code)) == Ok::<Seq<char>, Seq<char>>(code@),
        rendering_view(Err(error)) == Err::<Seq<char>, Seq<char>>(error@),
        shown_code(Ok(code@)) == code@,
        shown_code(Err(error@)) == "(could not render QR: "@ + error@ + ")"@,
{
}

} // verus!
