use unscrambler::analyse::{FnPass, IntoFnPass, Pass, PassThen, PassThenExt, Pipeline};

#[test]
fn pipeline_runs_a_pass_on_its_data() {
    let p = Pipeline::new(vec![1u8, 2, 3]);
    let count = FnPass::new(|v: &Vec<u8>| v.len());
    assert_eq!(p.run(count), 3);
}

#[test]
fn passes_chain() {
    let p = Pipeline::new(vec![5u8, 6]);
    let count = FnPass::new(|v: &Vec<u8>| v.len() as u32);
    let double = FnPass::new(|n: u64| n * 2);
    assert_eq!(p.run(count.then(double)), 4);
}

#[test]
fn function_into_pass() {
    let pass = (|n: u32| n + 1).into_pass();
    assert_eq!(pass.run(41), 42);
}

#[test]
fn pass_then_function_with_conversion() {
    let p = Pipeline::new(vec![1u8, 2, 3, 4]);
    let count = FnPass::new(|v: &Vec<u8>| v.len() as u32);
    let chained = count.then_into(|n: u64| n + 100);
    assert_eq!(p.run(chained), 104);
}
