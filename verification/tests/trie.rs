//! The prefix-trie construction tests: the shape of the tree built from
//! a literal set, with children in canonical (sorted) order.

use crossandra::tree::{generate_tree, Tree};

#[test]
fn empty_tree() {
        let tree = generate_tree(&[]);
        assert_eq!(tree, Tree::default());
    }

#[test]
fn flat_tree() {
        let tree = generate_tree(&[("add", "+"), ("sub", "-"), ("left", "<"), ("right", ">"), ("read", ","), ("write", "."), ("begin_loop", "["), ("end_loop", "]")]);

        assert!(tree.value.is_none());

        assert_eq!(
            tree.children,
            Tree::new(None, vec![('+', Tree::leaf("add")), (']', Tree::leaf("end_loop")), ('-', Tree::leaf("sub")), ('[', Tree::leaf("begin_loop")), (',', Tree::leaf("read")), ('.', Tree::leaf("write")), ('>', Tree::leaf("right")), ('<', Tree::leaf("left"))]).children
        );
    }

#[test]
fn basic_nested_tree() {
        let tree = generate_tree(&[("abc", "ABC"), ("acb", "ACB"), ("bac", "BAC"), ("bca", "BCA"), ("cab", "CAB"), ("cba", "CBA")]);

            let t1 = Tree::new(None, vec![('C', Tree::leaf("abc"))]);
    let t2 = Tree::new(None, vec![('B', Tree::leaf("acb"))]);
    let t3 = Tree::new(None, vec![('B', t1), ('C', t2)]);
    let t4 = Tree::new(None, vec![('C', Tree::leaf("bac"))]);
    let t5 = Tree::new(None, vec![('A', Tree::leaf("bca"))]);
    let t6 = Tree::new(None, vec![('A', t4), ('C', t5)]);
    let t7 = Tree::new(None, vec![('B', Tree::leaf("cab"))]);
    let t8 = Tree::new(None, vec![('A', Tree::leaf("cba"))]);
    let t9 = Tree::new(None, vec![('A', t7), ('B', t8)]);
    let expected_tree = Tree::new(None, vec![('A', t3), ('B', t6), ('C', t9)]);
    assert_eq!(tree, expected_tree);
    }

#[test]
fn break_path_nested_tree() {
        let tree = generate_tree(&[("x", "ABC"), ("y", "A"), ("z", "B")]);

            let t1 = Tree::new(None, vec![('C', Tree::leaf("x"))]);
    let t2 = Tree::new(Some("y"), vec![('B', t1)]);
    let expected_tree = Tree::new(None, vec![('A', t2), ('B', Tree::leaf("z"))]);
    assert_eq!(tree, expected_tree);
    }

#[test]
fn same_symbol_tree() {
        let tree = generate_tree(&[("a", "+"), ("b", "++"), ("c", "+++"), ("d", "++++"), ("e", "+++++"), ("f", "++++++")]);

            let t1 = Tree::new(Some("e"), vec![('+', Tree::leaf("f"))]);
    let t2 = Tree::new(Some("d"), vec![('+', t1)]);
    let t3 = Tree::new(Some("c"), vec![('+', t2)]);
    let t4 = Tree::new(Some("b"), vec![('+', t3)]);
    let t5 = Tree::new(Some("a"), vec![('+', t4)]);
    let expected_tree = Tree::new(None, vec![('+', t5)]);

        assert_eq!(tree, expected_tree);
    }

#[test]
fn samarium_tree() {
        let tree = generate_tree(&[("ad", "+"), ("an", "&&"), ("ar", "@@@"), ("as", ":"), ("at", "."), ("ba", "&"), ("bn", "~"), ("bo", "|"), ("brace_c", "}"), ("brace_o", "{"), ("brack_c", "]"), ("brack_o", "["), ("bx", "^"), ("cas", "%"), ("cat", "!!"), ("cl", "@"), ("da", "@!"), ("de", "<>"), ("di", "--"), ("e", ",,"), ("end", ";"), ("ent", "=>"), ("enu", "#"), ("eq", "::"), ("ex", "=>!"), ("fi_a", "&~~>"), ("fi_b_a", "&%~>"), ("fi_b_r", "<~%"), ("fi_b_r_w", "<%>"), ("fi_b_w", "%~>"), ("fi_c", "?~>"), ("fi_q_a", "&~>"), ("fi_q_b_a", "&%>"), ("fi_q_b_r", "<%"), ("fi_q_b_w", "%>"), ("fi_q_r", "<~"), ("fi_q_w", "~>"), ("fi_r_w", "<~>"), ("fi_r", "<~~"), ("fi_w", "~~>"), ("fo", "..."), ("fr", "<-"), ("fu", "*"), ("ge", ">:"), ("gt", ">"), ("h", "##"), ("if", "?"), ("im", "<="), ("in", "->?"), ("ins", "'"), ("le", "<:"), ("lt", "<"), ("mo", "---"), ("mu", "++"), ("ne", ":::"), ("no", "~~"), ("o", "||"), ("p_c", ")"), ("p_o", "("), ("pa", "!?"), ("po", "+++"), ("pr", "!"), ("r", "???"), ("se", ","), ("sle", ",.,"), ("s_c", ">>"), ("s_o", "<<"), ("sp", "$"), ("su", "-"), ("t_c", "}}"), ("t_o", "{{"), ("th", "!!!"), ("to", "->"), ("tr", "??"), ("ty", "?!"), ("u", "@@"), ("w", ".."), ("x", "^^"), ("y", "**"), ("z", "><")]);

            let t1 = Tree::new(None, vec![('>', Tree::leaf("fi_b_w"))]);
    let t2 = Tree::new(Some("cas"), vec![('>', Tree::leaf("fi_q_b_w")), ('~', t1)]);
    let t3 = Tree::new(None, vec![('>', Tree::leaf("fi_a"))]);
    let t4 = Tree::new(None, vec![('~', t3), ('>', Tree::leaf("fi_q_a"))]);
    let t5 = Tree::new(None, vec![('>', Tree::leaf("fi_b_a"))]);
    let t6 = Tree::new(None, vec![('>', Tree::leaf("fi_q_b_a")), ('~', t5)]);
    let t7 = Tree::new(Some("ba"), vec![('&', Tree::leaf("an")), ('~', t4), ('%', t6)]);
    let t8 = Tree::new(Some("to"), vec![('?', Tree::leaf("in"))]);
    let t9 = Tree::new(Some("di"), vec![('-', Tree::leaf("mo"))]);
    let t10 = Tree::new(Some("su"), vec![('>', t8), ('-', t9)]);
    let t11 = Tree::new(Some("gt"), vec![(':', Tree::leaf("ge")), ('>', Tree::leaf("s_c")), ('<', Tree::leaf("z"))]);
    let t12 = Tree::new(Some("bx"), vec![('^', Tree::leaf("x"))]);
    let t13 = Tree::new(Some("cat"), vec![('!', Tree::leaf("th"))]);
    let t14 = Tree::new(Some("pr"), vec![('?', Tree::leaf("pa")), ('!', t13)]);
    let t15 = Tree::new(Some("bo"), vec![('|', Tree::leaf("o"))]);
    let t16 = Tree::new(Some("fu"), vec![('*', Tree::leaf("y"))]);
    let t17 = Tree::new(Some("fi_q_r"), vec![('>', Tree::leaf("fi_r_w")), ('%', Tree::leaf("fi_b_r")), ('~', Tree::leaf("fi_r"))]);
    let t18 = Tree::new(Some("fi_q_b_r"), vec![('>', Tree::leaf("fi_b_r_w"))]);
    let t19 = Tree::new(Some("lt"), vec![('-', Tree::leaf("fr")), ('<', Tree::leaf("s_o")), (':', Tree::leaf("le")), ('>', Tree::leaf("de")), ('=', Tree::leaf("im")), ('~', t17), ('%', t18)]);
    let t20 = Tree::new(Some("u"), vec![('@', Tree::leaf("ar"))]);
    let t21 = Tree::new(Some("cl"), vec![('!', Tree::leaf("da")), ('@', t20)]);
    let t22 = Tree::new(Some("ent"), vec![('!', Tree::leaf("ex"))]);
    let t23 = Tree::new(None, vec![('>', t22)]);
    let t24 = Tree::new(None, vec![('>', Tree::leaf("fi_c"))]);
    let t25 = Tree::new(Some("tr"), vec![('?', Tree::leaf("r"))]);
    let t26 = Tree::new(Some("if"), vec![('!', Tree::leaf("ty")), ('~', t24), ('?', t25)]);
    let t27 = Tree::new(Some("no"), vec![('>', Tree::leaf("fi_w"))]);
    let t28 = Tree::new(Some("bn"), vec![('>', Tree::leaf("fi_q_w")), ('~', t27)]);
    let t29 = Tree::new(Some("brace_o"), vec![('{', Tree::leaf("t_o"))]);
    let t30 = Tree::new(Some("brace_c"), vec![('}', Tree::leaf("t_c"))]);
    let t31 = Tree::new(Some("mu"), vec![('+', Tree::leaf("po"))]);
    let t32 = Tree::new(Some("ad"), vec![('+', t31)]);
    let t33 = Tree::new(None, vec![(',', Tree::leaf("sle"))]);
    let t34 = Tree::new(Some("se"), vec![(',', Tree::leaf("e")), ('.', t33)]);
    let t35 = Tree::new(Some("eq"), vec![(':', Tree::leaf("ne"))]);
    let t36 = Tree::new(Some("as"), vec![(':', t35)]);
    let t37 = Tree::new(Some("enu"), vec![('#', Tree::leaf("h"))]);
    let t38 = Tree::new(Some("w"), vec![('.', Tree::leaf("fo"))]);
    let t39 = Tree::new(Some("at"), vec![('.', t38)]);
    let expected_tree = Tree::new(None, vec![('%', t2), ('&', t7), ('-', t10), ('>', t11), ('^', t12), ('$', Tree::leaf("sp")), ('!', t14), ('|', t15), ('*', t16), ('(', Tree::leaf("p_o")), ('<', t19), ('@', t21), ('=', t23), ('?', t26), ('~', t28), ('{', t29), ('}', t30), ('+', t32), (')', Tree::leaf("p_c")), (',', t34), ('\'', Tree::leaf("ins")), (':', t36), ('#', t37), ('[', Tree::leaf("brack_o")), (';', Tree::leaf("end")), (']', Tree::leaf("brack_c")), ('.', t39)]);

        assert_eq!(tree, expected_tree);
    }
