use quests::quest9::grow_population;
use quests::quest9::part1;
use quests::quest9::part2;
use quests::quest9::part3;
use quests::quest9::DeoxyribonucleicAcid;
use quests::quest9::Dragonduck;

fn dna(id: u32, sequence: &str) -> DeoxyribonucleicAcid {
    DeoxyribonucleicAcid { id, sequence: sequence.as_bytes().to_vec() }
}

fn all(list: &[(u32, &str)]) -> Vec<DeoxyribonucleicAcid> {
    list.iter().map(|(id, sequence)| dna(*id, sequence)).collect()
}

fn three() -> Vec<DeoxyribonucleicAcid> {
    all(&[
        (1, "CAAGCGCTAAGTTCGCTGGATGTGTGCCCGCG"),
        (2, "CTTGAATTGGGCCGTTTACCTGGTTTAACCAT"),
        (3, "CTAGCGCTGAGCTGGCTGCCTGGTTGACCGCG"),
    ])
}

fn seven() -> Vec<DeoxyribonucleicAcid> {
    all(&[
        (1, "GCAGGCGAGTATGATACCCGGCTAGCCACCCC"),
        (2, "TCTCGCGAGGATATTACTGGGCCAGACCCCCC"),
        (3, "GGTGGAACATTCGAAAGTTGCATAGGGTGGTG"),
        (4, "GCTCGCGAGTATATTACCGAACCAGCCCCTCA"),
        (5, "GCAGCTTAGTATGACCGCCAAATCGCGACTCA"),
        (6, "AGTGGAACCTTGGATAGTCTCATATAGCGGCA"),
        (7, "GGCGTAATAATCGGATGCTGCAGAGGCTGCTG"),
    ])
}

fn eight() -> Vec<DeoxyribonucleicAcid> {
    all(&[
        (1, "AAAA"),
        (2, "CCCC"),
        (3, "ACAC"),
        (4, "GGGG"),
        (5, "ACGG"),
        (6, "TTTT"),
        (7, "TATA"),
        (8, "TTTA"),
    ])
}

fn ids(family: &[Dragonduck]) -> Vec<u32> {
    let mut ids: Vec<u32> = family.iter().map(|d| d.dna.id).collect();
    ids.sort();
    ids
}

#[test]
fn copy_of_a_dna_is_equal() {
    let original = dna(7, "ACGT");
    assert_eq!(original.clone(), original);
    let duck = Dragonduck { dna: dna(1, "AA"), parents: Some([dna(2, "AC"), dna(3, "CA")]) };
    assert_eq!(duck.clone(), duck);
    let orphan = Dragonduck { dna: dna(1, "AA"), parents: None };
    assert_eq!(orphan.clone(), orphan);
}

#[test]
fn parents_give_each_letter() {
    let ducks = three();
    assert!(ducks[2].are_valid_parents(&[&ducks[0], &ducks[1]]));
    assert!(ducks[2].are_valid_parents(&[&ducks[1], &ducks[0]]));
    assert!(!ducks[0].are_valid_parents(&[&ducks[1], &ducks[2]]));
    assert!(dna(1, "").are_valid_parents(&[&ducks[1], &ducks[2]]));
}

#[test]
fn similarity_counts_equal_places() {
    let ducks = three();
    assert_eq!(ducks[2].count_similarity_degree(&ducks[0]), 23);
    assert_eq!(ducks[2].count_similarity_degree(&ducks[1]), 18);
    assert_eq!(ducks[2].count_similarity_degree(&ducks[2]), 32);
    assert_eq!(dna(1, "").count_similarity_degree(&ducks[0]), 0);
}

#[test]
fn first_pair_of_parents_is_found() {
    let ducks = three();
    assert_eq!(ducks[2].find_parents(&ducks), Some([ducks[0].clone(), ducks[1].clone()]));
    assert_eq!(ducks[0].find_parents(&ducks), None);
    let same = all(&[(4, "AA"), (9, "AA"), (2, "AA")]);
    assert_eq!(same[0].find_parents(&same), Some([same[1].clone(), same[2].clone()]));
    assert_eq!(same[1].find_parents(&same), Some([same[0].clone(), same[2].clone()]));
    let many = eight();
    assert_eq!(many[7].find_parents(&many), Some([many[0].clone(), many[5].clone()]));
    assert_eq!(many[0].find_parents(&many), Some([many[2].clone(), many[6].clone()]));
}

#[test]
fn dragonduck_is_not_its_own_parent() {
    let ducks = all(&[(1, "AC"), (1, "AC"), (2, "AC")]);
    assert_eq!(ducks[0].find_parents(&ducks), None);
    assert_eq!(ducks[2].find_parents(&ducks), Some([ducks[0].clone(), ducks[1].clone()]));
}

#[test]
fn likeness_of_the_first_child() {
    assert_eq!(part1(&three()), Ok(414));
    assert_eq!(part1(&eight()), Ok(4));
    assert_eq!(part1(&all(&[(4, "AA"), (9, "AA"), (2, "AA")])), Ok(4));
}

#[test]
fn likeness_needs_a_child() {
    assert_eq!(part1(&all(&[(1, "AB"), (2, "CD")])), Err("Couldn't find a valid child".to_string()));
    assert_eq!(part1(&[]), Err("Couldn't find a valid child".to_string()));
}

#[test]
fn likeness_of_all_children() {
    assert_eq!(part2(&seven()), 1245);
    assert_eq!(part2(&eight()), 19);
    assert_eq!(part2(&all(&[(1, "AB"), (2, "CD")])), 0);
    assert_eq!(part2(&all(&[(4, "AA"), (9, "AA"), (2, "AA")])), 12);
    assert_eq!(part2(&[]), 0);
}

#[test]
fn population_knows_its_parents() {
    let ducks = grow_population(&eight());
    let parents: Vec<Option<(u32, u32)>> =
        ducks.iter().map(|d| d.parents.as_ref().map(|p| (p[0].id, p[1].id))).collect();
    assert_eq!(
        parents,
        vec![
            Some((3, 7)),
            None,
            Some((1, 2)),
            None,
            Some((3, 4)),
            None,
            Some((1, 6)),
            Some((1, 6))
        ]
    );
    assert_eq!(ducks[4].dna, dna(5, "ACGG"));
}

#[test]
fn children_name_their_parent() {
    let ducks = grow_population(&eight());
    assert_eq!(ids(&ducks[0].find_children(&ducks)), vec![3, 7, 8]);
    assert_eq!(ids(&ducks[5].find_children(&ducks)), vec![7, 8]);
    assert_eq!(ids(&ducks[4].find_children(&ducks)), Vec::<u32>::new());
    assert!(ducks[2].has_parent(1));
    assert!(ducks[2].has_parent(2));
    assert!(!ducks[2].has_parent(3));
    assert!(!ducks[1].has_parent(1));
}

#[test]
fn family_holds_parents_and_children() {
    let ducks = grow_population(&seven());
    assert_eq!(ids(&ducks[0].build_family(&ducks).unwrap()), vec![1, 2, 4, 5]);
    assert_eq!(ids(&ducks[3].build_family(&ducks).unwrap()), vec![1, 2, 4, 5]);
    assert_eq!(ids(&ducks[2].build_family(&ducks).unwrap()), vec![3, 6, 7]);
    let family = ducks[6].build_family(&ducks).unwrap();
    assert_eq!(family[0], ducks[6]);
    assert_eq!(ids(&family), vec![3, 6, 7]);
}

#[test]
fn family_of_a_loner_is_the_loner() {
    let ducks = grow_population(&all(&[(1, "AB"), (2, "CD")]));
    assert_eq!(ids(&ducks[0].build_family(&ducks).unwrap()), vec![1]);
    let stranger = Dragonduck { dna: dna(77, "ZZ"), parents: None };
    assert_eq!(ids(&stranger.build_family(&ducks).unwrap()), vec![77]);
    assert_eq!(ids(&stranger.build_family(&[]).unwrap()), vec![77]);
}

#[test]
fn family_needs_its_parents_in_the_list() {
    let lost = Dragonduck { dna: dna(1, "AA"), parents: Some([dna(2, "AA"), dna(3, "AA")]) };
    let list = vec![Dragonduck { dna: dna(2, "AA"), parents: None }];
    assert_eq!(lost.build_family(&list), Err("Couldn't find parent by id".to_string()));
}

#[test]
fn largest_family_is_summed() {
    assert_eq!(part3(&seven()), Ok(12));
    assert_eq!(part3(&eight()), Ok(36));
    assert_eq!(part3(&all(&[(1, "AB"), (2, "CD")])), Ok(2));
    assert_eq!(part3(&all(&[(5, "AB"), (2, "CD")])), Ok(2));
}

#[test]
fn largest_family_needs_a_dragonduck_without_parents() {
    let same = all(&[(4, "AA"), (9, "AA"), (2, "AA")]);
    assert_eq!(part3(&same), Err("No dragoduck families".to_string()));
    assert_eq!(part3(&[]), Err("No dragoduck families".to_string()));
}
