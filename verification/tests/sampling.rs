use logic_core::services::dice::Dice;
use logic_core::services::is_satisfiable_dynamic;
use logic_core::services::planted_gen::sampling::{build_atom_pool, sample_premises};
use logic_core::services::PlantSpec;

#[test]
fn sample_premises_never_unsatisfiable() {
    let mut checked = 0usize;
    for atom_count in 3..=6u8 {
        let atoms = build_atom_pool(atom_count);
        let spec = PlantSpec {
            atoms: atom_count,
            par_min: 6,
            par_max: 12,
            max_premises: 5,
            max_formula_len: 90,
            subproofs: 0,
            obfuscation_passes: 0,
        };
        for seed in 0..500u64 {
            let mut dice = Dice::new(seed);
            let premises = sample_premises(&mut dice, &atoms, &spec);
            checked += 1;
            assert!(
                is_satisfiable_dynamic(&premises),
                "atoms={atom_count} seed {seed}: sample_premises produced an unsatisfiable set: {premises:?}"
            );
        }
    }
    assert!(checked > 0, "no seeds were checked");
}
