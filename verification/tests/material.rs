use simpa_core::import::ImportError;
use simpa_core::material::{number_text, read_material, read_materials};
use simpa_core::xml::{parse, XmlTree};

fn tree(text: &str) -> XmlTree {
    parse(text).ok().expect("well-formed")
}

const CONCRETE: &str = "<materiaux><mat name=\"Concrete\"><property><p name=\"side_material\" choice=\"0\"/></property><matcolor><p name=\"mat_color\" r=\"10\" g=\" 20\" b=\"x\"/></matcolor><materiau idmateriau=\"100\"><p name=\"100\"><p name=\"absorb\" value=\"0,5\"/><p name=\"diffusion\" value=\"0.1\"/><p name=\"loi\" choice=\"2\"/><p name=\"transmission\" value=\"1\"/><p name=\"affaiblissement\" value=\"30\"/></p><p name=\"200\"><p name=\"absorb\" value=\"0.2\"/><p name=\"diffusion\" value=\"0.3\"/></p></materiau></mat></materiaux>";

#[test]
fn a_material_of_the_current_form_is_read_band_by_band() {
    let t = tree(CONCRETE);
    let m = read_material(&t, 7, Some(2), &vec![100, 200]).ok().expect("a readable material");
    assert_eq!(m.solver_id, 100);
    assert_eq!(m.name, "Concrete");
    assert_eq!(m.color, (10, 20, 128));
    assert_eq!(m.absorption, vec!["0,5", "0.2"]);
    assert_eq!(m.scattering, vec!["0.1", "0.3"]);
    assert_eq!(m.laws, vec![2, 0]);
    assert_eq!(m.transmission_loss, Some(vec![Some("30".to_string()), None]));
    assert!(!m.double_sided);
}

#[test]
fn a_band_without_a_row_and_a_band_the_project_lacks_are_refused() {
    let t = tree(CONCRETE);
    assert!(matches!(read_material(&t, 7, Some(2), &vec![100, 200, 400]), Err(ImportError::Invalid { .. })));
    assert!(matches!(read_material(&t, 7, Some(2), &vec![100]), Err(ImportError::Unsupported { .. })));
}

fn old_form(row: &str) -> XmlTree {
    tree(&format!("<materiau idmateriau=\" 7\">{row}</materiau>"))
}

fn reason(r: Result<simpa_core::material::MaterialText, ImportError>) -> &'static str {
    match r {
        Err(ImportError::Refused { reason, .. }) => reason,
        _ => panic!("expected a refusal"),
    }
}

#[test]
fn a_material_of_the_old_form_reads_its_attributes() {
    let t = old_form("<bfreq eid=\"52\" name=\"100\" absorb=\"0.5\" diffusion=\"2e-1\" loi=\"1abc\"/>");
    let m = read_material(&t, 1, None, &vec![100]).ok().expect("a readable material");
    assert_eq!(m.name, "Material 7");
    assert_eq!(m.color, (128, 128, 128));
    assert_eq!((m.absorption, m.scattering, m.laws), (vec!["0.5".to_string()], vec!["2e-1".to_string()], vec![1]));
    assert_eq!(m.transmission_loss, None);
    assert!(m.double_sided);
    let t = old_form("<bfreq eid=\"52\" name=\"100\" absorb=\"x\" diffusion=\"0.2\" loi=\"1\"/>");
    assert_eq!(reason(read_material(&t, 1, None, &vec![100])), "proj_material_row_unreadable");
    let t = old_form("<bfreq eid=\"52\" name=\"100\" absorb=\"0.5\" diffusion=\"0.2\" loi=\"a\"/>");
    assert_eq!(reason(read_material(&t, 1, None, &vec![100])), "proj_material_row_unreadable");
    let t = old_form("<bfreq eid=\"52\" name=\"100\" absorb=\"0.5\" diffusion=\"0.2\" loi=\"9\"/>");
    assert_eq!(reason(read_material(&t, 1, None, &vec![100])), "proj_reflection_law_out_of_range");
    let t = tree("<materiau><bfreq eid=\"52\" name=\"100\" absorb=\"0.5\" diffusion=\"0.2\" loi=\"1\"/></materiau>");
    assert!(matches!(read_material(&t, 1, None, &vec![100]), Err(ImportError::Invalid { .. })));
}

#[test]
fn numbers_are_c_or_decimal_comma_and_finite_words() {
    assert!(number_text(" 1.5 "));
    assert!(number_text("0,25"));
    assert!(number_text("-3e2"));
    assert!(!number_text("1,5.0"));
    assert!(!number_text("inf"));
    assert!(!number_text("NaN"));
    assert!(!number_text(""));
}

fn database(first: u32, second: u32) -> XmlTree {
    let row = "<p name=\"100\"><p name=\"absorb\" value=\"0.1\"/><p name=\"diffusion\" value=\"0.2\"/></p>";
    tree(&format!(
        "<bdd><materiaux><mat name=\"A\"><materiau idmateriau=\"{first}\">{row}</materiau></mat><dir><mat name=\"B\"><materiau idmateriau=\"{second}\">{row}</materiau></mat></dir></materiaux></bdd>"
    ))
}

#[test]
fn every_material_below_the_database_is_read_depth_first() {
    let t = database(1, 2);
    let found = read_materials(&t, 2, &vec![100]).ok().expect("a readable database");
    let got: Vec<(u32, String)> = found.iter().map(|(_, _, m)| (m.solver_id, m.name.clone())).collect();
    assert_eq!(got, vec![(1, "A".to_string()), (2, "B".to_string())]);
}

#[test]
fn two_materials_with_one_id_are_refused() {
    let t = database(3, 3);
    assert!(matches!(read_materials(&t, 2, &vec![100]), Err(ImportError::Invalid { .. })));
}
