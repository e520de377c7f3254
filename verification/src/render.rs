//! Rendering a template with the liquid engine. The library selects the
//! template text and hands it, with up to two variable bindings, to liquid.
//! Only the library's own template texts are handed over: they hold plain
//! `{{...}}` substitutions and no filters, so what liquid returns for them
//! is a function of the text and the bindings alone. (That would not be
//! true of an arbitrary template: liquid's standard library has filters
//! whose output depends on the clock.)

use vstd::prelude::*;

use crate::platform::is_newline;
use crate::templates::bom_data_yaml_text;
use crate::templates::gitignore_text;
use crate::templates::item_text;
use crate::templates::package_json_text;
use crate::templates::readme_text;
use crate::templates::sr_file_text;

use crate::templates::bom_data_yaml_template;
use crate::templates::gitignore_template;
use crate::templates::item_template;
use crate::templates::package_json_template;
use crate::templates::readme_template;
use crate::templates::sr_file_template;
use crate::text::str_eq;

verus! {

/// What liquid renders from one of this library's template texts with `k1`
/// bound to `v1` and `k2` bound to `v2`. The name is only ever applied to
/// those texts (see `renderable_text`), for which the output is a function
/// of these arguments.
pub uninterp spec fn rendered(
    template: Seq<char>,
    k1: Seq<char>,
    v1: Seq<char>,
    k2: Seq<char>,
    v2: Seq<char>,
) -> Seq<char>;

/// A template text this library may hand to liquid: one of its own six
/// templates (for either line ending), or the empty text. These hold only
/// plain `{{...}}` variable substitutions — no filter, no tag — so
/// rendering them depends on the text and the bindings alone, never on the
/// clock or any other ambient state.
pub open spec fn renderable_text(text: Seq<char>) -> bool {
    ||| text == Seq::<char>::empty()
    ||| exists|nl: Seq<char>|
        is_newline(nl) && (text == sr_file_text(nl) || text == gitignore_text(nl) || text
            == bom_data_yaml_text(nl) || text == package_json_text(nl) || text == readme_text(nl)
            || text == item_text(nl))
}

/// Relies on liquid's `ParserBuilder`, `Parser::parse` and
/// `Template::render`: the template is parsed and rendered with the two
/// bindings. The claim that the output depends on the arguments alone is
/// restricted to this library's own template texts, which use no liquid
/// filters (some stdlib filters, such as `date` on the input `"now"`, read
/// the clock). `None` when liquid reports a parse or render error.
#[verifier::external_body]
fn liquid_render(text: &str, k1: &str, v1: &str, k2: &str, v2: &str) -> (r: Option<String>)
    requires
        renderable_text(text@),
    ensures
        r matches Some(s) ==> s@ == rendered(text@, k1@, v1@, k2@, v2@),
{
    let parser = match liquid::ParserBuilder::with_stdlib().build() {
        Ok(p) => p,
        Err(_) => return None,
    };
    let template = match parser.parse(text) {
        Ok(t) => t,
        Err(_) => return None,
    };
    let mut globals = liquid::Object::new();
    globals.insert(k1.to_owned().into(), liquid::model::Value::scalar(v1.to_owned()));
    globals.insert(k2.to_owned().into(), liquid::model::Value::scalar(v2.to_owned()));
    template.render(&globals).ok()
}

/// The template text a template name stands for; empty for an unknown name.
pub open spec fn template_text_for(name: Seq<char>, nl: Seq<char>) -> Seq<char> {
    if name == ".sr.liquid"@ {
        sr_file_text(nl)
    } else if name == ".gitignore.liquid"@ {
        gitignore_text(nl)
    } else if name == "bom_data.yaml.liquid"@ {
        bom_data_yaml_text(nl)
    } else if name == "package.json.liquid"@ {
        package_json_text(nl)
    } else if name == "README.md.liquid"@ {
        readme_text(nl)
    } else if name == "item.liquid"@ {
        item_text(nl)
    } else {
        Seq::empty()
    }
}

/// Renders the named template with up to two variable bindings (a template
/// that needs only one ignores the second; pass the first pair twice).
/// `None` when liquid reports an error.
pub fn render_template(template_name: &str, k1: &str, v1: &str, k2: &str, v2: &str) -> (r: Option<
    String,
>)
    ensures
        r matches Some(s) ==> exists|nl: Seq<char>|
            is_newline(nl) && s@ == rendered(
                template_text_for(template_name@, nl),
                k1@,
                v1@,
                k2@,
                v2@,
            ),
{
    let contents: String;
    if str_eq(template_name, ".sr.liquid") {
        contents = sr_file_template();
    } else if str_eq(template_name, ".gitignore.liquid") {
        contents = gitignore_template();
    } else if str_eq(template_name, "bom_data.yaml.liquid") {
        contents = bom_data_yaml_template();
    } else if str_eq(template_name, "package.json.liquid") {
        contents = package_json_template();
    } else if str_eq(template_name, "README.md.liquid") {
        contents = readme_template();
    } else if str_eq(template_name, "item.liquid") {
        contents = item_template();
    } else {
        contents = String::new();
    }
    let ghost nl: Seq<char> = if exists|nl: Seq<char>|
        is_newline(nl) && contents@ == template_text_for(template_name@, nl) {
        choose|nl: Seq<char>|
            is_newline(nl) && contents@ == template_text_for(template_name@, nl)
    } else {
        "\n"@
    };
    proof {
        assert(is_newline("\n"@));
        assert(is_newline(nl) && contents@ == template_text_for(template_name@, nl));
        assert(renderable_text(contents@)) by {
            if contents@ != Seq::<char>::empty() {
                assert(is_newline(nl) && (contents@ == sr_file_text(nl) || contents@
                    == gitignore_text(nl) || contents@ == bom_data_yaml_text(nl) || contents@
                    == package_json_text(nl) || contents@ == readme_text(nl) || contents@
                    == item_text(nl)));
            }
        }
    }
    liquid_render(contents.as_str(), k1, v1, k2, v2)
}

} // verus!
