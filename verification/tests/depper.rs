use depper::deps::Dependencies;
use depper::errors::ValidationError;

/// Tranche membership is the contract; order inside a tranche is not.
/// Sorting each tranche makes comparisons order-insensitive.
fn sorted_tranches(tranches: Vec<Vec<String>>) -> Vec<Vec<String>> {
    tranches
        .into_iter()
        .map(|mut t| {
            t.sort();
            t
        })
        .collect()
}

fn owned(names: &[&str]) -> Vec<Vec<String>> {
    names
        .iter()
        .map(|t| t.split(' ').map(str::to_string).collect())
        .collect()
}

#[test]
fn can_validate_simple_tree() {
    let mut dependencies_builder = Dependencies::builder()
        .add_element("a".to_string(), vec!["b".to_string(), "c".to_string()])
        .add_element("b".to_string(), vec!["c".to_string()])
        .add_element("c".to_string(), vec![]);

    assert!(dependencies_builder.build().is_ok());
}

#[test]
fn can_validate_complex_tree() {
    let mut dependencies_builder = Dependencies::builder()
        .add_element("a".to_string(), vec!["b".to_string(), "c".to_string()])
        .add_element("b".to_string(), vec!["c".to_string()])
        .add_element("c".to_string(), vec!["d".to_string(), "e".to_string()])
        .add_element("d".to_string(), vec!["e".to_string()])
        .add_element("e".to_string(), vec![]);

    assert!(dependencies_builder.build().is_ok());
}

#[test]
fn detects_missing_dependencies() {
    let mut dependencies_builder = Dependencies::builder()
        .add_element("a".to_string(), vec!["b".to_string(), "c".to_string()])
        .add_element("b".to_string(), vec!["c".to_string()]);

    assert_eq!(
        dependencies_builder.build().unwrap_err().message(),
        "Some dependencies do not exist as elements"
    );
}

#[test]
fn detects_cyclic_dependencies() {
    let mut dependencies_builder = Dependencies::builder()
        .add_element("a".to_string(), vec!["b".to_string(), "c".to_string()])
        .add_element("b".to_string(), vec!["c".to_string()])
        .add_element("c".to_string(), vec!["a".to_string(), "b".to_string()]);

    assert_eq!(
        dependencies_builder.build().unwrap_err().message(),
        "Cyclic dependency detected"
    );
}

#[test]
fn can_divide_into_tranches() {
    let mut dependencies_builder = Dependencies::builder()
        .add_element("b".to_string(), vec!["d".to_string()])
        .add_element("c".to_string(), vec!["d".to_string()])
        .add_element(
            "a".to_string(),
            vec!["d".to_string(), "e".to_string(), "y".to_string()],
        )
        .add_element("d".to_string(), vec!["e".to_string()])
        .add_element("e".to_string(), vec![])
        .add_element("y".to_string(), vec![]);

    let dependencies = dependencies_builder.build().unwrap();

    assert_eq!(
        sorted_tranches(dependencies.generate_tranches().unwrap()),
        owned(&["e y", "d", "a b c"])
    );
}

#[test]
fn can_update_dependecies_later() {
    let mut dependencies_builder = Dependencies::builder()
        .add_element("b".to_string(), vec!["d".to_string()])
        .add_element("c".to_string(), vec!["d".to_string()])
        .add_element(
            "a".to_string(),
            vec!["d".to_string(), "e".to_string(), "y".to_string()],
        )
        .add_element("d".to_string(), vec!["e".to_string()])
        .add_element("e".to_string(), vec![])
        .add_element("y".to_string(), vec![])
        .add_element("e".to_string(), vec!["y".to_string()]);

    let dependencies = dependencies_builder.build().unwrap();

    assert_eq!(
        sorted_tranches(dependencies.generate_tranches().unwrap()),
        owned(&["y", "e", "d", "a b c"])
    );
}

#[test]
fn dependecies_are_order_insensitive() {
    let mut ordered_dependencies_builder = Dependencies::builder()
        .add_element("machine1".to_string(), vec!["network1".to_string()])
        .add_element(
            "machine2".to_string(),
            vec!["network1".to_string(), "network2".to_string()],
        )
        .add_element("machine3".to_string(), vec!["network2".to_string()])
        .add_element("network1".to_string(), vec![])
        .add_element("network2".to_string(), vec![]);

    let ordered_dependecies = ordered_dependencies_builder.build().unwrap();

    let mut dependencies_builder = Dependencies::builder()
        .add_element("machine1".to_string(), vec!["network1".to_string()])
        .add_element("network1".to_string(), vec![])
        .add_element("network2".to_string(), vec![])
        .add_element(
            "machine2".to_string(),
            vec!["network1".to_string(), "network2".to_string()],
        )
        .add_element("machine3".to_string(), vec!["network2".to_string()]);

    let dependencies = dependencies_builder.build().unwrap();

    println!("{:?}", ordered_dependecies.generate_tranches());
    println!("{:?}", dependencies.generate_tranches());
    assert_eq!(
        ordered_dependecies.generate_tranches().unwrap().len(),
        dependencies.generate_tranches().unwrap().len()
    );
}

#[test]
fn registration_order_gives_identical_tranche_sets() {
    let mut forward = Dependencies::builder()
        .add_element("machine1".to_string(), vec!["network1".to_string()])
        .add_element(
            "machine2".to_string(),
            vec!["network1".to_string(), "network2".to_string()],
        )
        .add_element("machine3".to_string(), vec!["network2".to_string()])
        .add_element("network1".to_string(), vec![])
        .add_element("network2".to_string(), vec![]);

    let mut shuffled = Dependencies::builder()
        .add_element("network2".to_string(), vec![])
        .add_element("machine3".to_string(), vec!["network2".to_string()])
        .add_element("machine1".to_string(), vec!["old".to_string()])
        .add_element("network1".to_string(), vec![])
        .add_element(
            "machine2".to_string(),
            vec!["network1".to_string(), "network2".to_string()],
        )
        .add_element("machine1".to_string(), vec!["network1".to_string()]);

    let forward_tranches = forward.build().unwrap().generate_tranches().unwrap();
    let shuffled_tranches = shuffled.build().unwrap().generate_tranches().unwrap();

    assert_eq!(
        sorted_tranches(forward_tranches),
        sorted_tranches(shuffled_tranches)
    );
}

#[test]
fn simple_chain_divides_into_singleton_tranches() {
    let mut builder = Dependencies::builder()
        .add_element("a".to_string(), vec!["b".to_string(), "c".to_string()])
        .add_element("b".to_string(), vec!["c".to_string()])
        .add_element("c".to_string(), vec![]);

    let dependencies = builder.build().unwrap();

    assert_eq!(
        sorted_tranches(dependencies.generate_tranches().unwrap()),
        owned(&["c", "b", "a"])
    );
}

#[test]
fn tranches_partition_all_elements() {
    let mut builder = Dependencies::builder()
        .add_element("b".to_string(), vec!["d".to_string()])
        .add_element("c".to_string(), vec!["d".to_string()])
        .add_element(
            "a".to_string(),
            vec!["d".to_string(), "e".to_string(), "y".to_string()],
        )
        .add_element("d".to_string(), vec!["e".to_string()])
        .add_element("e".to_string(), vec![])
        .add_element("y".to_string(), vec![]);

    let tranches = builder.build().unwrap().generate_tranches().unwrap();

    let mut seen: Vec<String> = tranches.into_iter().flatten().collect();
    seen.sort();
    let mut expected = vec!["a", "b", "c", "d", "e", "y"];
    expected.sort();
    assert_eq!(seen, expected);
}

#[test]
fn dependencies_sit_in_strictly_earlier_tranches() {
    let pairs: Vec<(&str, Vec<&str>)> = vec![
        ("b", vec!["d"]),
        ("c", vec!["d"]),
        ("a", vec!["d", "e", "y"]),
        ("d", vec!["e"]),
        ("e", vec![]),
        ("y", vec![]),
    ];
    let mut builder = Dependencies::builder();
    for (name, deps) in &pairs {
        builder = builder.add_element(
            name.to_string(),
            deps.iter().map(|d| d.to_string()).collect(),
        );
    }
    let tranches = builder.build().unwrap().generate_tranches().unwrap();

    let tranche_of = |name: &str| -> usize {
        tranches
            .iter()
            .position(|t| t.iter().any(|e| e == name))
            .unwrap()
    };
    for (name, deps) in &pairs {
        for dep in deps {
            assert!(tranche_of(dep) < tranche_of(name));
        }
    }
}

#[test]
fn rejects_self_dependency() {
    let mut builder =
        Dependencies::builder().add_element("a".to_string(), vec!["a".to_string()]);

    assert_eq!(
        builder.build().unwrap_err(),
        ValidationError::CyclicDependency
    );
}

#[test]
fn missing_dependency_takes_precedence_over_cycle() {
    let mut builder = Dependencies::builder()
        .add_element("a".to_string(), vec!["a".to_string(), "ghost".to_string()]);

    assert_eq!(
        builder.build().unwrap_err(),
        ValidationError::MissingDependency
    );
}

#[test]
fn empty_registration_builds_no_tranches() {
    let mut builder = Dependencies::builder();
    let dependencies = builder.build().unwrap();
    assert_eq!(dependencies.generate_tranches().unwrap(), Vec::<Vec<String>>::new());
}

#[test]
fn duplicate_dependency_names_are_tolerated() {
    let mut builder = Dependencies::builder()
        .add_element("a".to_string(), vec!["b".to_string(), "b".to_string()])
        .add_element("b".to_string(), vec![]);

    let dependencies = builder.build().unwrap();
    assert_eq!(
        sorted_tranches(dependencies.generate_tranches().unwrap()),
        owned(&["b", "a"])
    );
}

#[test]
fn build_and_generation_are_repeatable() {
    let mut builder = Dependencies::builder()
        .add_element("a".to_string(), vec!["b".to_string()])
        .add_element("b".to_string(), vec![]);

    let first = builder.build().unwrap().generate_tranches().unwrap();
    let again = builder.build().unwrap();
    assert_eq!(again.generate_tranches().unwrap(), first);
    assert_eq!(again.generate_tranches().unwrap(), first);
}

#[test]
fn error_messages_name_each_failure() {
    assert_eq!(
        ValidationError::MissingDependency.message(),
        "Some dependencies do not exist as elements"
    );
    assert_eq!(
        ValidationError::CyclicDependency.message(),
        "Cyclic dependency detected"
    );
    assert_eq!(
        ValidationError::InternalInconsistency.message(),
        "No element is free of unplaced dependencies"
    );
}
