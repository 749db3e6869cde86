use blif_sim::config::{Config, Element, ParseError, Register, Var, LUT};
use blif_sim::parser::{get_inputs, get_lut, get_model, get_model_name, get_outputs, get_reg};
use blif_sim::store::{SimError, Store};

#[test]
fn test_get_model_name() {
    assert_eq!(get_model_name(".model counter\n"), Some(("", "counter".to_string())));
}

#[test]
fn test_get_inputs() {
    let mut store = Store::new();
    let mut other = Store::new();
    let expected = vec![
        Var::new("in0", &mut other),
        Var::new("in1", &mut other),
        Var::new("in2", &mut other),
    ];
    assert_eq!(get_inputs(".inputs in0 in1 in2\n", &mut store), Some(("", expected)));
}

#[test]
fn test_get_outputs() {
    let mut store = Store::new();
    let mut other = Store::new();
    let expected = vec![
        Var::new("out0", &mut other),
        Var::new("out1", &mut other),
        Var::new("out2", &mut other),
    ];
    assert_eq!(get_outputs(".outputs out0 out1 out2\n", &mut store), Some(("", expected)));
}

#[test]
fn test_get_lut() {
    let mut store = Store::new();
    let lut = Element::LUT(
        LUT::new(vec!["out0", "out1", "out2"], "return0", vec!["011 1", "100 1"], &mut store)
            .unwrap(),
    );
    assert_eq!(
        get_lut(".names out0 out1 out2 return0\n011 1\n100 1\n.names", &mut store),
        Ok(Some((".names", lut)))
    );
}

#[test]
fn test_get_reg() {
    let mut store = Store::new();
    let reg = Element::Register(
        Register::new("$0out[8:0][8]", "out[8]", Some(("re", "clock")), Some('2'), &mut store)
            .unwrap(),
    );
    assert_eq!(get_reg(".latch $0out[8:0][8] out[8] re clock 2\n", &mut store), Some(("", reg)));

    let reg = Element::Register(
        Register::new("$0out[8:0][8]", "out[8]", Some(("re", "clock")), None, &mut store).unwrap(),
    );
    assert_eq!(get_reg(".latch $0out[8:0][8] out[8] re clock\n", &mut store), Some(("", reg)));

    let reg = Element::Register(
        Register::new("$0out[8:0][8]", "out[8]", None, None, &mut store).unwrap(),
    );
    assert_eq!(get_reg(".latch $0out[8:0][8] out[8]\n", &mut store), Some(("", reg)));

    let reg = Element::Register(
        Register::new("$0out[8:0][8]", "out[8]", None, Some('2'), &mut store).unwrap(),
    );
    assert_eq!(get_reg(".latch $0out[8:0][8] out[8] 2\n", &mut store), Some(("", reg)));
}

const MODEL_TEXT: &str = r#".model toplevel
.inputs clock plain[0] plain[1] plain[2] plain[3]
.outputs cipher[0] cipher[1] cipher[2] cipher[3]
.names state[3] state[2] state[1] state[0] done
1000 1
.names state[3] state[0] mod.state[0] $abc$8433$n994 $0\state[3:0][0]
0001 1
0011 1
0101 1
0110 1
0111 1
1100 1
1101 1
1110 1
1111 1
.latch $0\out[255:0][222] out[222] re clock 2
.latch $0\out[255:0][223] out[223] re clock 2
.latch $0\out[255:0][224] out[224] re clock 2
.names mod.state[0] $abc$8433$n2278 $abc$8433$n1807 $abc$8433$n1806 $abc$8433$n2289
0011 1
0111 1
1100 1
1101 1
1110 1
1111 1"#;

#[test]
fn test_get_model() {
    let mut store = Store::new();
    assert!(matches!(get_model(MODEL_TEXT, &mut store), Ok(Some(_))));
}

const DESIGN_TEXT: &str = r#"
# Generated by Yosys 0.9 (git sha1 UNKNOWN, gcc 10.1.0 -march=x86-64 -mtune=generic -O2 -fno-plt -fPIC -Os)

.model toplevel
.inputs clock plain[0] plain[1] plain[2] plain[3]
.outputs cipher[0] cipher[1] cipher[2] cipher[3]
.names state[3] state[0] mod.state[0] $abc$8433$n994 $0\state[3:0][0]
0001 1
0011 1
.latch $0\out[255:0][233] out[233] re clock 2
.names mod.state[1] mod.state[0] $abc$8433$n993
10 1

.model toplevel2
.inputs clock plain[0] plain[1] plain[2] plain[3]
.outputs cipher[0] cipher[1] cipher[2] cipher[3]
.names state[3] state[2] state[1] state[0] done
1000 1
.names state[3] state[0] mod.state[0] $abc$8433$n994 $0\state[3:0][0]
0001 1
0011 1
.latch $0\out[255:0][229] out[229] re clock 2
.latch $0\out[255:0][230] out[230] re clock 2
.end
"#;

#[test]
fn test_parse_blif() {
    let mut store = Store::new();
    let blif = Config::parse_blif(DESIGN_TEXT, &mut store).unwrap();
    if blif.len() != 2 {
        assert!(false, "wrong number models returned.");
    }
}

#[test]
fn model_parts_of_parsed_model() {
    let mut store = Store::new();
    let (rest, m) = get_model(MODEL_TEXT, &mut store).unwrap().unwrap();
    assert_eq!(m.name(), "toplevel");
    assert_eq!(m.inputs().len(), 5);
    assert_eq!(m.outputs()[3].name(), "cipher[3]");
    // the last table's final row has no line end, so it is left over
    assert_eq!(m.elements().len(), 6);
    assert_eq!(rest, "1111 1");
    assert_eq!(store.get("out[223]"), Some(0));
    assert_eq!(store.get("$abc$8433$n2289"), Some(0));
}

#[test]
fn header_alone_gives_empty_lists() {
    let mut store = Store::new();
    assert_eq!(get_model_name(".model counter\n.inputs a\n"), Some((".inputs a\n", "counter".to_string())));
    let (rest, m) = get_model(".model counter\n.inputs\n.outputs\n", &mut store).unwrap().unwrap();
    assert_eq!(rest, "");
    assert_eq!(m.name(), "counter");
    assert!(m.inputs().is_empty());
    assert!(m.outputs().is_empty());
    assert!(m.elements().is_empty());
}

#[test]
fn header_needs_one_name() {
    assert_eq!(get_model_name(".model\n"), None);
    assert_eq!(get_model_name(".model a b\n"), None);
    assert_eq!(get_model_name(".model counter"), None);
}

#[test]
fn inputs_register_at_zero_and_keep_values() {
    let mut store = Store::new();
    store.register("in1");
    store.set("in1", 1).unwrap();
    let (rest, vars) = get_inputs(".inputs in0 in1 in2\nnext", &mut store).unwrap();
    assert_eq!(rest, "next");
    assert_eq!(vars.len(), 3);
    assert_eq!(store.get("in0"), Some(0));
    assert_eq!(store.get("in1"), Some(1));
    assert_eq!(store.get("in2"), Some(0));
}

#[test]
fn lut_sets_output_on_matching_row() {
    let mut store = Store::new();
    let lut = LUT::new(vec!["a", "b", "c"], "out", vec!["011 1", "100 1"], &mut store).unwrap();
    store.set("a", 0).unwrap();
    store.set("b", 1).unwrap();
    store.set("c", 1).unwrap();
    assert_eq!(lut.exec(&mut store), Ok(()));
    assert_eq!(store.get("out"), Some(1));
}

#[test]
fn lut_leaves_output_when_no_row_matches() {
    let mut store = Store::new();
    let lut = LUT::new(vec!["a", "b", "c"], "out", vec!["011 1", "100 1"], &mut store).unwrap();
    store.set("out", 1).unwrap();
    assert_eq!(lut.exec(&mut store), Ok(()));
    assert_eq!(store.get("out"), Some(1));
    store.set("out", 0).unwrap();
    store.set("a", 1).unwrap();
    assert_eq!(Element::LUT(lut).exec(&mut store), Ok(()));
    assert_eq!(store.get("out"), Some(1));
}

#[test]
fn lut_later_row_overrides() {
    let mut store = Store::new();
    let lut = LUT::new(vec!["a"], "y", vec!["1 1", "1 0"], &mut store).unwrap();
    store.set("a", 1).unwrap();
    store.set("y", 1).unwrap();
    lut.exec(&mut store).unwrap();
    assert_eq!(store.get("y"), Some(0));
}

#[test]
fn lut_rejects_dont_care_and_bad_rows() {
    let mut store = Store::new();
    assert_eq!(
        LUT::new(vec!["a", "b"], "y", vec!["1- 1"], &mut store),
        Err(ParseError::MalformedTableRow("1- 1".to_string()))
    );
    assert_eq!(
        LUT::new(vec!["a", "b"], "y", vec!["11 1", "111 1"], &mut store),
        Err(ParseError::MalformedTableRow("111 1".to_string()))
    );
    assert_eq!(
        LUT::new(vec!["a"], "y", vec!["1"], &mut store),
        Err(ParseError::MalformedTableRow("1".to_string()))
    );
    // nothing was registered
    assert_eq!(store.get("a"), None);
    assert_eq!(
        get_lut(".names a b y\n1- 1\n", &mut store),
        Err(ParseError::MalformedTableRow("1- 1".to_string()))
    );
}

#[test]
fn register_copies_regardless_of_clock() {
    let mut store = Store::new();
    let reg = Register::new("x", "y", Some(("fe", "clk")), Some('0'), &mut store).unwrap();
    assert_eq!(reg.signal(), "fe");
    assert_eq!(reg.control().name(), "clk");
    assert_eq!(reg.init(), 0);
    store.set("x", 1).unwrap();
    assert_eq!(reg.exec(&mut store), Ok(()));
    assert_eq!(store.get("y"), Some(1));
}

#[test]
fn register_defaults() {
    let mut store = Store::new();
    let reg = Register::new("x", "y", None, None, &mut store).unwrap();
    assert_eq!(reg.signal(), "re");
    assert_eq!(reg.control().name(), "NIL");
    assert_eq!(reg.init(), 3);
    assert_eq!(store.get("NIL"), Some(0));
}

#[test]
fn register_rejects_bad_edge_and_init() {
    let mut store = Store::new();
    assert_eq!(
        Register::new("x", "y", Some(("xx", "clk")), Some('7'), &mut store),
        Err(ParseError::InvalidClockEdge("xx".to_string()))
    );
    assert_eq!(
        Register::new("x", "y", None, Some('7'), &mut store),
        Err(ParseError::InvalidInitValue('7'))
    );
    assert_eq!(store.get("x"), None);
}

#[test]
fn missing_input_is_a_fault() {
    let mut built = Store::new();
    let lut = LUT::new(vec!["a", "b"], "y", vec!["00 1"], &mut built).unwrap();
    let mut fresh = Store::new();
    assert_eq!(
        lut.exec(&mut fresh),
        Err(SimError::UninitializedSignal("a".to_string()))
    );
    assert_eq!(fresh.get("y"), None);
    let reg = Register::new("x", "z", None, None, &mut built).unwrap();
    assert_eq!(
        Element::Register(reg).exec(&mut fresh),
        Err(SimError::UninitializedSignal("x".to_string()))
    );
}

#[test]
fn parsing_twice_gives_equal_designs() {
    let mut store = Store::new();
    let first = Config::new(DESIGN_TEXT, &mut store).unwrap();
    let after_first = store.get("done");
    let second = Config::new(DESIGN_TEXT, &mut store).unwrap();
    assert_eq!(first, second);
    assert_eq!(store.get("done"), after_first);
}

#[test]
fn two_models_around_comment_and_blank_line() {
    let text = ".model a\n.inputs x\n.outputs y\n.names x y\n1 1\n.end\n# a comment\n\n.model b\n.inputs p\n.outputs q\n.latch p q 1\n.end\n";
    let mut store = Store::new();
    let c = Config::new(text, &mut store).unwrap();
    let models = c.models();
    assert_eq!(models.len(), 2);
    assert_eq!(models[0].name(), "a");
    assert_eq!(models[1].name(), "b");
    assert_eq!(models[1].elements().len(), 1);
    match &models[1].elements()[0] {
        Element::Register(g) => assert_eq!(g.init(), 1),
        _ => panic!("expected a latch"),
    }
}

#[test]
fn garbage_only_gives_no_models() {
    let mut store = Store::new();
    let c = Config::new("# nothing\n\n.end\nno newline", &mut store).unwrap();
    assert!(c.models().is_empty());
    assert_eq!(Config::parse_blif("", &mut store).unwrap().len(), 0);
}

#[test]
fn parse_reports_malformed_row() {
    let mut store = Store::new();
    let text = ".model a\n.inputs x\n.outputs y\n.names x y\n- 1\n";
    assert_eq!(
        Config::new(text, &mut store),
        Err(ParseError::MalformedTableRow("- 1".to_string()))
    );
    assert_eq!(store.get("x"), None);
}

#[test]
fn latch_lines_that_do_not_fit() {
    let mut store = Store::new();
    assert_eq!(get_reg(".latch a b xx c\n", &mut store), None);
    assert_eq!(get_reg(".latch a b 7\n", &mut store), None);
    assert_eq!(get_reg(".latch a\n", &mut store), None);
}

#[test]
fn names_outside_ascii() {
    let mut store = Store::new();
    let c = Config::new(".model zähler\n.inputs ä b\n.outputs ö\n.names ä b ö\n11 1\n", &mut store)
        .unwrap();
    let m = &c.models()[0];
    assert_eq!(m.name(), "zähler");
    assert_eq!(m.inputs()[0].name(), "ä");
    assert_eq!(m.outputs()[0].name(), "ö");
    store.set("ä", 1).unwrap();
    store.set("b", 1).unwrap();
    m.elements()[0].exec(&mut store).unwrap();
    assert_eq!(store.get("ö"), Some(1));
}

#[test]
fn rows_split_at_any_white_space() {
    let mut store = Store::new();
    let lut = LUT::new(vec!["a"], "y", vec!["0\t1"], &mut store).unwrap();
    store.set("a", 0).unwrap();
    lut.exec(&mut store).unwrap();
    assert_eq!(store.get("y"), Some(1));
    let lut2 = LUT::new(vec!["a", "b"], "z", vec![" 10 \t 1 "], &mut store).unwrap();
    store.set("a", 1).unwrap();
    lut2.exec(&mut store).unwrap();
    assert_eq!(store.get("z"), Some(1));
    let (rest, e) = get_lut(".names a y\n1\t0\n.end\n", &mut store).unwrap().unwrap();
    assert_eq!(rest, ".end\n");
    assert_eq!(e, Element::LUT(LUT::new(vec!["a"], "y", vec!["1 0"], &mut store).unwrap()));
}

#[test]
fn directives_start_in_the_first_column() {
    let mut store = Store::new();
    assert_eq!(get_model_name("  .model x\n"), None);
    assert!(Config::new("  .model x\n.inputs\n.outputs\n", &mut store)
        .unwrap()
        .models()
        .is_empty());
    assert_eq!(get_inputs(" .inputs a\n", &mut store), None);
    assert_eq!(get_reg(" .latch a b\n", &mut store), None);
    assert_eq!(get_lut(" .names a b\n1 1\n", &mut store), Ok(None));
}

#[test]
fn tables_compare_by_their_entries() {
    let mut store = Store::new();
    let a = LUT::new(vec!["a", "b"], "y", vec!["01 1", "10 1"], &mut store).unwrap();
    let b = LUT::new(vec!["a", "b"], "y", vec!["10 1", "01 0", "01 1"], &mut store).unwrap();
    let c = LUT::new(vec!["a", "b"], "y", vec!["10 1"], &mut store).unwrap();
    let d = LUT::new(vec!["b", "a"], "y", vec!["01 1", "10 1"], &mut store).unwrap();
    assert!(a == b);
    assert!(a != c);
    assert!(a != d);
}

#[test]
fn design_document_element_kinds() {
    let mut store = Store::new();
    let c = Config::new(DESIGN_TEXT, &mut store).unwrap();
    let kinds = |m: &blif_sim::config::Model| -> Vec<bool> {
        m.elements().iter().map(|e| matches!(e, Element::LUT(_))).collect()
    };
    assert_eq!(c.models().len(), 2);
    assert_eq!(c.models()[0].name(), "toplevel");
    assert_eq!(c.models()[1].name(), "toplevel2");
    assert_eq!(kinds(&c.models()[0]), vec![true, false, true]);
    assert_eq!(kinds(&c.models()[1]), vec![true, true, false, false]);
}
