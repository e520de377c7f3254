//! The boilerplate files a freshly scaffolded component starts from. Each
//! template is plain text with `{{...}}` placeholders; the line ending is
//! the host's (see `platform`).

use vstd::prelude::*;

use crate::platform::is_newline;

use crate::platform::get_newline;

verus! {

/// The text of the bill-of-materials template, with line ending `nl`.
pub open spec fn bom_data_yaml_text(nl: Seq<char>) -> Seq<char> {
    "# Bill of Materials Data for {{name}}"@ + nl + "parts:"@ + nl + "  component_1:"@ + nl
        + "    options:"@ + nl + "    - specific_component_variation"@ + nl
        + "    default_option: 0"@ + nl + "    quantity: 1"@ + nl + "    quantity_units: part"@
        + nl + "    name: Sample Component"@ + nl + "    notes: ''"@ + nl + nl + "order:"@ + nl
        + "  -component_1"@ + nl
}

/// The bill-of-materials template for a new component.
pub fn bom_data_yaml_template() -> (r: String)
    ensures
        exists|nl: Seq<char>| is_newline(nl) && r@ == bom_data_yaml_text(nl),
{
    let nl = get_newline();
    let mut contents = String::from_str("# Bill of Materials Data for {{name}}");
    contents.append(nl.as_str());
    contents.append("parts:");
    contents.append(nl.as_str());
    contents.append("  component_1:");
    contents.append(nl.as_str());
    contents.append("    options:");
    contents.append(nl.as_str());
    contents.append("    - specific_component_variation");
    contents.append(nl.as_str());
    contents.append("    default_option: 0");
    contents.append(nl.as_str());
    contents.append("    quantity: 1");
    contents.append(nl.as_str());
    contents.append("    quantity_units: part");
    contents.append(nl.as_str());
    contents.append("    name: Sample Component");
    contents.append(nl.as_str());
    contents.append("    notes: ''");
    contents.append(nl.as_str());
    contents.append(nl.as_str());
    contents.append("order:");
    contents.append(nl.as_str());
    contents.append("  -component_1");
    contents.append(nl.as_str());
    proof {
        assert(contents@ =~= bom_data_yaml_text(nl@));
    }
    contents
}

/// The text of the ignore-file template, with line ending `nl`.
pub open spec fn gitignore_text(nl: Seq<char>) -> Seq<char> {
    "# Dependency directories"@ + nl + "node_modules/"@ + nl + nl + "# Distribution directory"@
        + nl + "dist/"@ + nl
}

/// The ignore-file template for a new component.
pub fn gitignore_template() -> (r: String)
    ensures
        exists|nl: Seq<char>| is_newline(nl) && r@ == gitignore_text(nl),
{
    let nl = get_newline();
    let mut contents = String::from_str("# Dependency directories");
    contents.append(nl.as_str());
    contents.append("node_modules/");
    contents.append(nl.as_str());
    contents.append(nl.as_str());
    contents.append("# Distribution directory");
    contents.append(nl.as_str());
    contents.append("dist/");
    contents.append(nl.as_str());
    proof {
        assert(contents@ =~= gitignore_text(nl@));
    }
    contents
}

/// The text of the package manifest template, with line ending `nl`.
pub open spec fn package_json_text(nl: Seq<char>) -> Seq<char> {
    "{"@ + nl + "  \"name\": \"{{name}}\","@ + nl + "  \"version\": \"1.0.0\","@ + nl
        + "  \"description\": \"Sliderule DOF component.\","@ + nl
        + "  \"license\": \"{{license}}\","@ + nl + "  \"dependencies\": {"@ + nl + "  }"@ + nl
        + "}"@ + nl
}

/// The package manifest template for a new component.
pub fn package_json_template() -> (r: String)
    ensures
        exists|nl: Seq<char>| is_newline(nl) && r@ == package_json_text(nl),
{
    let nl = get_newline();
    let mut contents = String::from_str("{");
    contents.append(nl.as_str());
    contents.append("  \"name\": \"{{name}}\",");
    contents.append(nl.as_str());
    contents.append("  \"version\": \"1.0.0\",");
    contents.append(nl.as_str());
    contents.append("  \"description\": \"Sliderule DOF component.\",");
    contents.append(nl.as_str());
    contents.append("  \"license\": \"{{license}}\",");
    contents.append(nl.as_str());
    contents.append("  \"dependencies\": {");
    contents.append(nl.as_str());
    contents.append("  }");
    contents.append(nl.as_str());
    contents.append("}");
    contents.append(nl.as_str());
    proof {
        assert(contents@ =~= package_json_text(nl@));
    }
    contents
}

/// The text of the readme template, with line ending `nl`.
pub open spec fn readme_text(nl: Seq<char>) -> Seq<char> {
    "# {{name}}"@ + nl + "New Sliderule component."@ + nl + nl + "---"@ + nl
        + "Developed in [Sliderule](http://sliderule.io) an implementation of the [Distributed OSHW Framework](http://dof.sliderule.io)."@
        + nl
}

/// The readme template for a new component.
pub fn readme_template() -> (r: String)
    ensures
        exists|nl: Seq<char>| is_newline(nl) && r@ == readme_text(nl),
{
    let nl = get_newline();
    let mut contents = String::from_str("# {{name}}");
    contents.append(nl.as_str());
    contents.append("New Sliderule component.");
    contents.append(nl.as_str());
    contents.append(nl.as_str());
    contents.append("---");
    contents.append(nl.as_str());
    contents.append(
        "Developed in [Sliderule](http://sliderule.io) an implementation of the [Distributed OSHW Framework](http://dof.sliderule.io).",
    );
    contents.append(nl.as_str());
    proof {
        assert(contents@ =~= readme_text(nl@));
    }
    contents
}

/// The text of the marker-file template, with line ending `nl`.
pub open spec fn sr_file_text(nl: Seq<char>) -> Seq<char> {
    "source_license: {{source_license}},"@ + nl + "documentation_license: {{doc_license}}"@ + nl
}

/// The marker-file template for a new component: one line per license kind.
pub fn sr_file_template() -> (r: String)
    ensures
        exists|nl: Seq<char>| is_newline(nl) && r@ == sr_file_text(nl),
{
    let nl = get_newline();
    let mut contents = String::from_str("source_license: {{source_license}},");
    contents.append(nl.as_str());
    contents.append("documentation_license: {{doc_license}}");
    contents.append(nl.as_str());
    proof {
        assert(contents@ =~= sr_file_text(nl@));
    }
    contents
}

/// The text of the part/tool item template, with line ending `nl`.
pub open spec fn item_text(nl: Seq<char>) -> Seq<char> {
    "{{item_name}}:"@ + nl + "  id: {{item_name}}"@ + nl + "  description: {{item_description}}"@
        + nl + "  quantity: {{item_qty}}"@ + nl + "  quantityUnits: {{quantity_units}}"@ + nl
        + "  options:"@ + nl + "  - {{component_name}}"@ + nl
        + "  selectedOption: {{component_name}}"@ + nl + "  notes: {{item_notes}}"@
}

/// The template for one part or tool item entry.
pub fn item_template() -> (r: String)
    ensures
        exists|nl: Seq<char>| is_newline(nl) && r@ == item_text(nl),
{
    let nl = get_newline();
    let mut contents = String::from_str("{{item_name}}:");
    contents.append(nl.as_str());
    contents.append("  id: {{item_name}}");
    contents.append(nl.as_str());
    contents.append("  description: {{item_description}}");
    contents.append(nl.as_str());
    contents.append("  quantity: {{item_qty}}");
    contents.append(nl.as_str());
    contents.append("  quantityUnits: {{quantity_units}}");
    contents.append(nl.as_str());
    contents.append("  options:");
    contents.append(nl.as_str());
    contents.append("  - {{component_name}}");
    contents.append(nl.as_str());
    contents.append("  selectedOption: {{component_name}}");
    contents.append(nl.as_str());
    contents.append("  notes: {{item_notes}}");
    proof {
        assert(contents@ =~= item_text(nl@));
    }
    contents
}

} // verus!
