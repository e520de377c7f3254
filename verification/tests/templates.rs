//! Tests of the template texts and of rendering them through liquid.

#[test]
fn test_gitignore_template() {
    let content = sliderule::templates::gitignore_template();

    assert!(content.contains("# Dependency directories"));
    assert!(content.contains("node_modules/"));
    assert!(content.contains("# Distribution directory"));
    assert!(content.contains("dist/"));

    // Render the template and make sure we got what was expected
    let render = sliderule::render_template(".gitignore.liquid", "name", "", "name", "")
        .expect("Could not render template using Liquid.");

    assert!(render.contains("# Dependency directories"));
    assert!(render.contains("node_modules/"));
    assert!(render.contains("# Distribution directory"));
    assert!(render.contains("dist/"));
}

#[test]
fn test_sr_file_template() {
    let content = sliderule::templates::sr_file_template();

    assert!(content.contains("source_license: {{source_license}},"));
    assert!(content.contains("documentation_license: {{doc_license}}"));

    // Render the template and make sure we got what was expected
    let render = sliderule::render_template(
        ".sr.liquid",
        "source_license",
        "NotASourceLicense",
        "doc_license",
        "NotADocLicense",
    )
    .expect("Could not render template using Liquid.");

    assert!(render.contains("source_license: NotASourceLicense,"));
    assert!(render.contains("documentation_license: NotADocLicense"));
}

#[test]
fn test_bom_data_yaml_template() {
    let content = sliderule::templates::bom_data_yaml_template();

    assert!(content.contains("# Bill of Materials Data for {{name}}"));
    assert!(content.contains("parts:"));
    assert!(content.contains("    - specific_component_variation"));
    assert!(content.contains("    notes: ''"));
    assert!(content.contains("order:"));
    assert!(content.contains("  -component_1"));

    // Render the template and make sure we got what was expected
    let render = sliderule::render_template(
        "bom_data.yaml.liquid",
        "name",
        "TopLevel",
        "name",
        "TopLevel",
    )
    .expect("Could not render template using Liquid.");

    assert!(render.contains("# Bill of Materials Data for TopLevel"));
    assert!(render.contains("parts:"));
    assert!(render.contains("    - specific_component_variation"));
    assert!(render.contains("    notes: ''"));
    assert!(render.contains("order:"));
    assert!(render.contains("  -component_1"));
}

#[test]
fn test_package_json_template() {
    let content = sliderule::templates::package_json_template();

    assert!(content.contains("  \"name\": \"{{name}}\","));
    assert!(content.contains("  \"license\": \"{{license}}\","));

    // Render the template and make sure we got what was expected
    let render = sliderule::render_template(
        "package.json.liquid",
        "name",
        "TopLevel",
        "license",
        "(NotASourceLicense AND NotADocLicense)",
    )
    .expect("Could not render template using Liquid.");

    assert!(render.contains("  \"name\": \"TopLevel\","));
    assert!(render.contains("  \"license\": \"(NotASourceLicense AND NotADocLicense)\","));
}

#[test]
fn test_readme_template() {
    let content = sliderule::templates::readme_template();

    assert!(content.contains("# {{name}}"));
    assert!(content.contains("Developed in [Sliderule](http://sliderule.io) an implementation of the [Distributed OSHW Framework](http://dof.sliderule.io)."));

    // Render the template and make sure we got what was expected
    let render =
        sliderule::render_template("README.md.liquid", "name", "TopLevel", "name", "TopLevel")
            .expect("Could not render template using Liquid.");

    assert!(render.contains("# TopLevel"));
    assert!(render.contains("Developed in [Sliderule](http://sliderule.io) an implementation of the [Distributed OSHW Framework](http://dof.sliderule.io)."));
}

#[test]
fn test_item_template() {
    let content = sliderule::templates::item_template();

    assert!(content.contains("{{item_name}}:"));
    assert!(content.contains("  id: {{item_name}}"));
    assert!(content.contains("  notes: {{item_notes}}"));
}

#[test]
fn test_render_unknown_template() {
    // An unknown template name renders to the empty string.
    let render = sliderule::render_template("no_such.liquid", "name", "x", "name", "x")
        .expect("Could not render template using Liquid.");
    assert_eq!(render, "");
}
