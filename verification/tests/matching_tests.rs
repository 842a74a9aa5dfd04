use rex::compile::start_compile;
use rex::matching::do_match;
use rex::parse;
use rex::repr::Pattern;
use rex::state::dot;

fn simple_re0() -> Pattern {
    parse::parse("aa+$").unwrap()
}

#[test]
fn test_match_simple() {
    let re = simple_re0();
    println!("{:?}", re);
    println!("{:?}", do_match(&start_compile(&re), "aaab"));
    let dot = dot(&start_compile(&re));
    println!("digraph st {{ {} }}", dot);
}
