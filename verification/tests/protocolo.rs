use mi_motor::board::Board;
use mi_motor::protocolo::{jugar_jugadas, leer_orden, Base, Limite, Orden};

fn posicion(linea: &str) -> (Base, Vec<String>) {
    match leer_orden(linea) {
        Orden::Posicion(b, j) => (b, j),
        _ => panic!("no es una orden position: {}", linea),
    }
}

fn limite(linea: &str) -> Limite {
    match leer_orden(linea) {
        Orden::Buscar(l) => l,
        _ => panic!("no es una orden go: {}", linea),
    }
}

#[test]
fn ordenes_simples() {
    assert!(matches!(leer_orden("uci"), Orden::Identificacion));
    assert!(matches!(leer_orden("  isready  "), Orden::Listo));
    assert!(matches!(leer_orden("ucinewgame"), Orden::NuevaPartida));
    assert!(matches!(leer_orden("quit"), Orden::Salir));
    assert!(matches!(leer_orden(""), Orden::Ninguna));
    assert!(matches!(leer_orden("   \t "), Orden::Ninguna));
    assert!(matches!(leer_orden("stop"), Orden::Ninguna));
    assert!(matches!(leer_orden("ucii"), Orden::Ninguna));
}

#[test]
fn orden_position_startpos_con_jugadas() {
    let (b, j) = posicion("position startpos moves e2e4 e7e5  g1f3");
    assert!(matches!(b, Base::Inicial));
    assert_eq!(j, vec!["e2e4".to_string(), "e7e5".to_string(), "g1f3".to_string()]);
    let (b, j) = posicion("position startpos");
    assert!(matches!(b, Base::Inicial));
    assert!(j.is_empty());
}

#[test]
fn orden_position_fen_se_une_con_espacios() {
    let (b, j) = posicion("position fen  8/8/8/8/8/8/8/K6k   w - -  0 1 moves a1a2");
    match b {
        Base::Fen(f) => assert_eq!(f, "8/8/8/8/8/8/8/K6k w - - 0 1"),
        _ => panic!("se esperaba una FEN"),
    }
    assert_eq!(j, vec!["a1a2".to_string()]);
    let (b, j) = posicion("position fen 8/8/8/8/8/8/8/K6k w - - 0 1");
    match b {
        Base::Fen(f) => assert_eq!(f, "8/8/8/8/8/8/8/K6k w - - 0 1"),
        _ => panic!("se esperaba una FEN"),
    }
    assert!(j.is_empty());
}

#[test]
fn orden_position_sin_base() {
    let (b, j) = posicion("position moves e2e4");
    assert!(matches!(b, Base::Actual));
    assert_eq!(j, vec!["e2e4".to_string()]);
    let (b, j) = posicion("position");
    assert!(matches!(b, Base::Actual));
    assert!(j.is_empty());
}

#[test]
fn orden_go_limites() {
    assert_eq!(limite("go movetime 1500"), Limite::Tiempo(1500));
    assert_eq!(limite("go movetime +1500"), Limite::Tiempo(1500));
    assert_eq!(limite("go movetime -5"), Limite::Tiempo(2000));
    assert_eq!(limite("go movetime"), Limite::Tiempo(2000));
    assert_eq!(limite("go movetime 18446744073709551615"), Limite::Tiempo(u64::MAX));
    assert_eq!(limite("go movetime 18446744073709551616"), Limite::Tiempo(2000));
    assert_eq!(limite("go depth 7"), Limite::Profundidad(7));
    assert_eq!(limite("go depth -3"), Limite::Profundidad(-3));
    assert_eq!(limite("go depth x"), Limite::Profundidad(6));
    assert_eq!(limite("go depth 2147483648"), Limite::Profundidad(6));
    assert_eq!(limite("go depth -2147483648"), Limite::Profundidad(i32::MIN));
    assert_eq!(limite("go wtime 60000 btime 30000"), Limite::Reloj(60000, 30000));
    assert_eq!(limite("go wtime 60000"), Limite::Reloj(60000, 10000));
    assert_eq!(limite("go btime 5 wtime -9223372036854775808"), Limite::Reloj(i64::MIN, 5));
    assert_eq!(limite("go infinite"), Limite::Tiempo(2000));
    assert_eq!(limite("go depth 3 movetime 100"), Limite::Tiempo(100));
}

#[test]
fn orden_setoption() {
    match leer_orden("setoption name Personalidad value tal") {
        Orden::Opcion(n, v) => {
            assert_eq!(n.as_deref(), Some("Personalidad"));
            assert_eq!(v.as_deref(), Some("tal"));
        }
        _ => panic!("se esperaba setoption"),
    }
    match leer_orden("setoption name UseNN") {
        Orden::Opcion(n, v) => {
            assert_eq!(n.as_deref(), Some("UseNN"));
            assert_eq!(v, None);
        }
        _ => panic!("se esperaba setoption"),
    }
}

#[test]
fn jugadas_de_position_se_juegan_en_orden() {
    let b = Board::startpos();
    let jugadas: Vec<String> = ["e2e4", "zz", "e7e5", "e1e3", "g1f3"].iter().map(|s| s.to_string()).collect();
    let r = jugar_jugadas(&b, &jugadas);
    let uci: Vec<String> = r.jugadas.iter().map(|m| m.to_uci()).collect();
    assert_eq!(uci, vec!["e2e4", "e7e5", "g1f3"]);
    assert_eq!(r.claves.len(), 3);
    assert_eq!(r.claves[0], b.zobrist);
    let esperado = Board::from_fen("rnbqkbnr/pppp1ppp/8/4p3/4P3/5N2/PPPP1PPP/RNBQKB1R b KQkq - 1 2").unwrap();
    assert_eq!(r.tablero.to_fen(), esperado.to_fen());
    assert_eq!(r.tablero.zobrist, esperado.zobrist);
}

#[test]
fn jugadas_tras_el_mate_se_pasan_por_alto() {
    let b = Board::startpos();
    let jugadas: Vec<String> =
        ["f2f3", "e7e5", "g2g4", "d8h4", "a2a3"].iter().map(|s| s.to_string()).collect();
    let r = jugar_jugadas(&b, &jugadas);
    assert_eq!(r.jugadas.len(), 4);
    assert_eq!(r.tablero.to_fen(), "rnb1kbnr/pppp1ppp/8/4p3/6Pq/5P2/PPPPP2P/RNBQKBNR w KQkq - 1 3");
}
