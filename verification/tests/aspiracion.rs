use mi_motor::board::Board;
use mi_motor::search::Searcher;

fn cero(_b: &Board) -> i32 {
    0
}

#[test]
fn busqueda_a_profundidad_cero_no_busca() {
    let mut s = Searcher::new(1);
    let (m, sc, n) = s.search_fixed_depth(&cero, &Board::startpos(), 0);
    assert_eq!((m, sc, n), (None, -30000, 0));
}
